use vstd::prelude::*;
use crate::reduce::{chain_post, reduce_all, total_len, views_of, MergeError};
use crate::table::{cell_of, distinct_transcripts, lookup, Assignment};

verus! {

/// One transcript with its auxiliary attribute values, one value per
/// requested column in the caller's column order; a column an input lacks
/// is `None`.
#[derive(Clone, Debug, PartialEq, Eq)]
pub struct AttrRow {
    pub transcript: u64,
    pub values: Vec<Option<String>>,
}

/// One output row: a transcript, its resolved cell, and its attributes.
#[derive(Clone, Debug, PartialEq, Eq)]
pub struct OutRow {
    pub transcript: u64,
    pub cell: Option<u64>,
    pub values: Vec<Option<String>>,
}

/// Whether some attribute row carries transcript `t`.
pub open spec fn attr_has(s: Seq<AttrRow>, t: u64) -> bool {
    exists|i: int| 0 <= i < s.len() && s[i].transcript == t
}

/// No transcript appears in two attribute rows.
pub open spec fn distinct_attrs(s: Seq<AttrRow>) -> bool {
    forall|i: int, j: int| 0 <= i < j < s.len() ==> s[i].transcript != s[j].transcript
}

/// The rows with each transcript's first occurrence kept and every later
/// occurrence dropped: first seen wins.
pub open spec fn dedup_first(s: Seq<AttrRow>) -> Seq<AttrRow>
    decreases s.len(),
{
    if s.len() == 0 {
        Seq::empty()
    } else {
        let d = dedup_first(s.drop_last());
        if attr_has(s.drop_last(), s.last().transcript) {
            d
        } else {
            d.push(s.last())
        }
    }
}

/// Deduplication keeps exactly the transcripts that occur.
pub proof fn lemma_dedup_membership(s: Seq<AttrRow>, t: u64)
    ensures
        attr_has(dedup_first(s), t) <==> attr_has(s, t),
    decreases s.len(),
{
    if s.len() > 0 {
        let sp = s.drop_last();
        lemma_dedup_membership(sp, t);
        assert(forall|i: int| 0 <= i < sp.len() ==> sp[i] == s[i]);
        assert(attr_has(s, t) <==> (attr_has(sp, t) || s.last().transcript == t)) by {
            if attr_has(s, t) {
                let i = choose|i: int| 0 <= i < s.len() && s[i].transcript == t;
                if i < s.len() - 1 {
                    assert(sp[i].transcript == t);
                }
            }
            if attr_has(sp, t) {
                let i = choose|i: int| 0 <= i < sp.len() && sp[i].transcript == t;
                assert(s[i].transcript == t);
            }
            if s.last().transcript == t {
                assert(s[s.len() - 1].transcript == t);
            }
        }
        let d = dedup_first(sp);
        if !attr_has(sp, s.last().transcript) {
            assert(attr_has(d.push(s.last()), t) <==> (attr_has(d, t) || s.last().transcript == t))
                by {
                if attr_has(d.push(s.last()), t) {
                    let i = choose|i: int|
                        0 <= i < d.push(s.last()).len() && d.push(s.last())[i].transcript == t;
                    if i < d.len() {
                        assert(d[i].transcript == t);
                    }
                }
                if attr_has(d, t) {
                    let i = choose|i: int| 0 <= i < d.len() && d[i].transcript == t;
                    assert(d.push(s.last())[i].transcript == t);
                }
                if s.last().transcript == t {
                    assert(d.push(s.last()).last().transcript == t);
                }
            }
        }
    }
}

/// Deduplication leaves each transcript at most once.
pub proof fn lemma_dedup_distinct(s: Seq<AttrRow>)
    ensures
        distinct_attrs(dedup_first(s)),
    decreases s.len(),
{
    if s.len() > 0 {
        let sp = s.drop_last();
        lemma_dedup_distinct(sp);
        let d = dedup_first(sp);
        if !attr_has(sp, s.last().transcript) {
            lemma_dedup_membership(sp, s.last().transcript);
            assert(!attr_has(d, s.last().transcript));
            assert forall|p: int, q: int| 0 <= p < q < d.push(s.last()).len()
                implies d.push(s.last())[p].transcript != d.push(s.last())[q].transcript by {
                if q < d.len() {
                } else {
                    assert(d.push(s.last())[q] == s.last());
                    assert(d.push(s.last())[p] == d[p]);
                    assert(attr_has(d, d[p].transcript));
                }
            }
        }
    }
}

/// Scans the attribute rows for a transcript.
pub fn attr_contains(rows: &Vec<AttrRow>, t: u64) -> (r: bool)
    ensures
        r == attr_has(rows@, t),
{
    let n = rows.len();
    let mut i: usize = 0;
    while i < n
        invariant
            0 <= i <= n,
            n == rows@.len(),
            forall|j: int| 0 <= j < i ==> rows@[j].transcript != t,
        decreases n - i,
    {
        if rows[i].transcript == t {
            assert(rows@[i as int].transcript == t);
            return true;
        }
        i += 1;
    }
    false
}

/// Builds the universe of transcripts: drops every repeated transcript,
/// keeping the attributes of the occurrence seen first.
pub fn unique_transcripts(rows: Vec<AttrRow>) -> (u: Vec<AttrRow>)
    ensures
        u@ == dedup_first(rows@),
        distinct_attrs(u@),
        forall|t: u64| attr_has(u@, t) <==> attr_has(rows@, t),
{
    let ghost orig = rows@;
    let mut rows = rows;
    let mut u: Vec<AttrRow> = Vec::new();
    let ghost mut k: int = 0;
    proof {
        assert(orig.subrange(0, 0) =~= Seq::<AttrRow>::empty());
        assert(orig.subrange(0, orig.len() as int) =~= orig);
    }
    while rows.len() > 0
        invariant
            0 <= k <= orig.len(),
            rows@ == orig.subrange(k, orig.len() as int),
            u@ == dedup_first(orig.subrange(0, k)),
        decreases rows@.len(),
    {
        let row = rows.remove(0);
        proof {
            assert(row == orig.subrange(k, orig.len() as int)[0]);
            assert(row == orig[k]);
            assert(rows@ =~= orig.subrange(k + 1, orig.len() as int));
        }
        let dup = attr_contains(&u, row.transcript);
        proof {
            let pre = orig.subrange(0, k);
            assert(orig.subrange(0, k + 1).drop_last() =~= pre);
            assert(orig.subrange(0, k + 1).last() == orig[k]);
            lemma_dedup_membership(pre, orig[k].transcript);
        }
        if !dup {
            u.push(row);
        }
        proof {
            k = k + 1;
        }
    }
    proof {
        assert(orig.subrange(k, orig.len() as int).len() == 0);
        assert(k == orig.len());
        lemma_dedup_distinct(orig);
        assert forall|t: u64| attr_has(u@, t) <==> attr_has(orig, t) by {
            lemma_dedup_membership(orig, t);
        }
    }
    u
}

/// The left join of the final assignment onto the universe: every universe
/// row kept in order, its attributes untouched, and its cell the one the
/// final table resolves it to — `None` when the final table has none.
pub open spec fn attach_post(uni: Seq<AttrRow>, fin: Seq<Assignment>, out: Seq<OutRow>) -> bool {
    &&& out.len() == uni.len()
    &&& forall|i: int| 0 <= i < uni.len() ==> {
        &&& (#[trigger] out[i]).transcript == uni[i].transcript
        &&& out[i].cell == cell_of(fin, uni[i].transcript)
        &&& out[i].values == uni[i].values
    }
}

/// Joins the final assignment onto the universe of transcripts.
pub fn attach(uni: Vec<AttrRow>, fin: &Vec<Assignment>) -> (out: Vec<OutRow>)
    ensures
        attach_post(uni@, fin@, out@),
{
    let ghost orig = uni@;
    let mut uni = uni;
    let mut out: Vec<OutRow> = Vec::new();
    let ghost mut k: int = 0;
    while uni.len() > 0
        invariant
            0 <= k <= orig.len(),
            uni@ == orig.subrange(k, orig.len() as int),
            out@.len() == k,
            forall|i: int| 0 <= i < k ==> {
                &&& (#[trigger] out@[i]).transcript == orig[i].transcript
                &&& out@[i].cell == cell_of(fin@, orig[i].transcript)
                &&& out@[i].values == orig[i].values
            },
        decreases uni@.len(),
    {
        let row = uni.remove(0);
        proof {
            assert(row == orig.subrange(k, orig.len() as int)[0]);
            assert(row == orig[k]);
            assert(uni@ =~= orig.subrange(k + 1, orig.len() as int));
        }
        let cell = lookup(fin, row.transcript);
        out.push(OutRow { transcript: row.transcript, cell, values: row.values });
        proof {
            k = k + 1;
        }
    }
    proof {
        assert(orig.subrange(k, orig.len() as int).len() == 0);
        assert(k == orig.len());
    }
    out
}

/// Merges all input labelings and joins the result onto the universe of
/// transcripts with their first-seen attributes: the whole pipeline from
/// loaded tables to output rows.
pub fn run(
    layers: &Vec<Vec<Assignment>>,
    attrs: Vec<AttrRow>,
    tn: u32,
    td: u32,
) -> (r: Result<Vec<OutRow>, MergeError>)
    requires
        forall|i: int| 0 <= i < layers@.len() ==> distinct_transcripts((#[trigger] layers@[i])@),
        total_len(views_of(layers@)) <= 0x1000_0000_0000_0000,
    ensures
        r is Err <==> layers@.len() < 2,
        r matches Err(e) ==> e == MergeError::NotEnoughInputs,
        r matches Ok(out) ==> exists|fin: Seq<Assignment>|
            {
                &&& #[trigger] chain_post(views_of(layers@), fin, tn, td)
                &&& distinct_transcripts(fin)
                &&& attach_post(dedup_first(attrs@), fin, out@)
            },
{
    let fin = match reduce_all(layers, tn, td) {
        Ok(f) => f,
        Err(e) => {
            return Err(e);
        },
    };
    let uni = unique_transcripts(attrs);
    let out = attach(uni, &fin);
    proof {
        assert(chain_post(views_of(layers@), fin@, tn, td));
    }
    Ok(out)
}

} // verus!
