use vstd::prelude::*;
use crate::merger::{merge, merge_post};
use crate::table::{distinct_transcripts, Assignment};

verus! {

/// The one configuration error the merge raises: fewer than two inputs,
/// so there is nothing to merge.
#[derive(Clone, Copy, Debug, PartialEq, Eq)]
pub enum MergeError {
    NotEnoughInputs,
}

impl MergeError {
    /// A plain description, for callers that print the error.
    pub fn message(&self) -> &'static str {
        "Not enough files to merge. Please provide at least two files."
    }
}

/// The tables a list of layers holds, as sequences.
pub open spec fn views_of(ls: Seq<Vec<Assignment>>) -> Seq<Seq<Assignment>> {
    ls.map_values(|v: Vec<Assignment>| v@)
}

/// The total number of rows over a list of tables.
pub open spec fn total_len(ts: Seq<Seq<Assignment>>) -> nat
    decreases ts.len(),
{
    if ts.len() == 0 {
        0
    } else {
        total_len(ts.drop_last()) + ts.last().len()
    }
}

/// A prefix of a list never holds more rows than the list.
pub proof fn lemma_total_len_prefix(ts: Seq<Seq<Assignment>>, k: int)
    requires
        0 <= k <= ts.len(),
    ensures
        total_len(ts.subrange(0, k)) <= total_len(ts),
    decreases ts.len() - k,
{
    if k < ts.len() {
        assert(ts.subrange(0, k + 1).drop_last() =~= ts.subrange(0, k));
        assert(ts.subrange(0, k + 1).last() == ts[k]);
        lemma_total_len_prefix(ts, k + 1);
    } else {
        assert(ts.subrange(0, k) =~= ts);
    }
}

/// The intermediate states of the left-to-right fold over `ts`: `mids[0]`
/// is the merge of the first two tables, and each later `mids[k]` is the
/// merge of the state before it with table `ts[k + 1]`.
pub open spec fn chain_steps(
    ts: Seq<Seq<Assignment>>,
    mids: Seq<Seq<Assignment>>,
    tn: u32,
    td: u32,
) -> bool {
    &&& ts.len() >= 2
    &&& mids.len() + 1 == ts.len()
    &&& merge_post(ts[0], ts[1], mids[0], tn, td)
    &&& forall|k: int| 1 <= k < mids.len() ==> merge_post(
        mids[k - 1],
        ts[k + 1],
        #[trigger] mids[k],
        tn,
        td,
    )
}

/// `r` is the result of folding the pairwise merge left to right over the
/// list of tables `ts`, in the order given.
pub open spec fn chain_post(ts: Seq<Seq<Assignment>>, r: Seq<Assignment>, tn: u32, td: u32) -> bool {
    exists|mids: Seq<Seq<Assignment>>|
        #[trigger] chain_steps(ts, mids, tn, td) && mids.last() == r
}

/// Folds the pairwise merge left to right over all input layers; rejects
/// lists of fewer than two layers, where there is nothing to merge.
pub fn reduce_all(layers: &Vec<Vec<Assignment>>, tn: u32, td: u32) -> (r: Result<
    Vec<Assignment>,
    MergeError,
>)
    requires
        forall|i: int| 0 <= i < layers@.len() ==> distinct_transcripts((#[trigger] layers@[i])@),
        total_len(views_of(layers@)) <= 0x1000_0000_0000_0000,
    ensures
        r is Err <==> layers@.len() < 2,
        r matches Err(e) ==> e == MergeError::NotEnoughInputs,
        r matches Ok(f) ==> {
            &&& chain_post(views_of(layers@), f@, tn, td)
            &&& distinct_transcripts(f@)
            &&& f@.len() <= total_len(views_of(layers@))
        },
{
    if layers.len() < 2 {
        return Err(MergeError::NotEnoughInputs);
    }
    let ghost ts = views_of(layers@);
    proof {
        assert(ts[0] == layers@[0]@);
        assert(ts[1] == layers@[1]@);
        lemma_total_len_prefix(ts, 2);
        assert(ts.subrange(0, 2).drop_last() =~= ts.subrange(0, 1));
        assert(ts.subrange(0, 1).drop_last() =~= ts.subrange(0, 0));
        assert(ts.subrange(0, 2).last() == ts[1]);
        assert(ts.subrange(0, 1).last() == ts[0]);
        assert(total_len(ts.subrange(0, 0)) == 0);
        assert(total_len(ts.subrange(0, 1)) == ts[0].len());
        assert(total_len(ts.subrange(0, 2)) == ts[0].len() + ts[1].len());
    }
    let mut acc = merge(&layers[0], &layers[1], tn, td);
    let n = layers.len();
    let mut i: usize = 2;
    let ghost mut mids: Seq<Seq<Assignment>> = seq![acc@];
    proof {
        assert(ts.subrange(0, 2)[0] == ts[0]);
        assert(ts.subrange(0, 2)[1] == ts[1]);
        assert(chain_steps(ts.subrange(0, 2), mids, tn, td));
    }
    while i < n
        invariant
            2 <= i <= n,
            n == layers@.len(),
            ts == views_of(layers@),
            forall|j: int| 0 <= j < layers@.len() ==> distinct_transcripts(
                (#[trigger] layers@[j])@,
            ),
            total_len(ts) <= 0x1000_0000_0000_0000,
            distinct_transcripts(acc@),
            chain_steps(ts.subrange(0, i as int), mids, tn, td),
            mids.last() == acc@,
            acc@.len() <= total_len(ts.subrange(0, i as int)),
        decreases n - i,
    {
        proof {
            assert(ts[i as int] == layers@[i as int]@);
            assert(ts.subrange(0, i as int + 1).drop_last() =~= ts.subrange(0, i as int));
            assert(ts.subrange(0, i as int + 1).last() == ts[i as int]);
            assert(total_len(ts.subrange(0, i as int + 1)) == total_len(ts.subrange(0, i as int))
                + ts[i as int].len());
            lemma_total_len_prefix(ts, i as int + 1);
        }
        let next = merge(&acc, &layers[i], tn, td);
        proof {
            let sub = ts.subrange(0, i as int + 1);
            let old_mids = mids;
            mids = mids.push(next@);
            assert(mids[mids.len() - 1] == next@);
            assert(forall|k: int| 0 <= k < old_mids.len() ==> mids[k] == old_mids[k]);
            assert(mids[mids.len() - 2] == acc@);
            assert(chain_steps(sub, mids, tn, td)) by {
                assert(sub[0] == ts[0] && sub[1] == ts[1]);
                assert(forall|k: int| 0 <= k < sub.len() ==> sub[k] == ts[k]);
                assert(merge_post(mids[mids.len() - 2], sub[mids.len() - 1 + 1], next@, tn, td));
                assert forall|k: int| 1 <= k < mids.len() implies merge_post(
                    mids[k - 1],
                    sub[k + 1],
                    #[trigger] mids[k],
                    tn,
                    td,
                ) by {
                    if k < mids.len() - 1 {
                        assert(mids[k] == old_mids[k] && mids[k - 1] == old_mids[k - 1]);
                        assert(merge_post(old_mids[k - 1], ts.subrange(0, i as int)[k + 1], old_mids[k], tn, td));
                        assert(ts.subrange(0, i as int)[k + 1] == ts[k + 1]);
                    }
                }
            }
        }
        acc = next;
        i += 1;
    }
    proof {
        assert(ts.subrange(0, n as int) =~= ts);
        assert(chain_steps(ts, mids, tn, td));
    }
    Ok(acc)
}

} // verus!
