//! Merging the ordered record streams of several segments.
//!
//! [`merge_of`] is the exact meaning of the merge: as long as any stream
//! has records left, take the head that sorts earliest by
//! `(key, timestamp)`, and of equal heads the one from the earliest
//! stream.  Streams stand in snapshot order, oldest first, so records
//! agreeing on `(key, timestamp)` come out oldest first: the
//! commit-order tie-break.

use vstd::prelude::*;

use crate::record::lemma_rec_total;
use crate::record::rec_le;
use crate::record::views_of;
use crate::record::Rec;
use crate::record::Record;
use crate::segment::SegmentReader;

verus! {

/// How many records all the streams still hold together.
pub open spec fn total_len(ss: Seq<Seq<Rec>>) -> nat
    decreases ss.len(),
{
    if ss.len() == 0 {
        0
    } else {
        ss[0].len() + total_len(ss.drop_first())
    }
}

/// Scanning from `k` on: the index whose head every later head must beat
/// strictly to displace, so that ties keep the earliest stream.
pub open spec fn min_idx_from(ss: Seq<Seq<Rec>>, k: int) -> int
    recommends
        0 <= k < ss.len(),
    decreases ss.len() - k,
{
    if k >= ss.len() - 1 {
        k
    } else {
        let m = min_idx_from(ss, k + 1);
        if ss[k].len() == 0 {
            m
        } else if ss[m].len() == 0 {
            k
        } else if rec_le(ss[k][0], ss[m][0]) {
            k
        } else {
            m
        }
    }
}

/// The stream whose head the merge serves next.
pub open spec fn min_idx(ss: Seq<Seq<Rec>>) -> int {
    min_idx_from(ss, 0)
}

pub proof fn lemma_min_idx_from(ss: Seq<Seq<Rec>>, k: int)
    requires
        0 <= k < ss.len(),
    ensures
        k <= min_idx_from(ss, k) < ss.len(),
        (ss[min_idx_from(ss, k)].len() == 0 ==> forall|j: int|
            k <= j < ss.len() ==> (#[trigger] ss[j]).len() == 0),
        (ss[min_idx_from(ss, k)].len() > 0 ==> forall|j: int|
            k <= j < ss.len() && (#[trigger] ss[j]).len() > 0 ==> rec_le(
                ss[min_idx_from(ss, k)][0],
                ss[j][0],
            )),
    decreases ss.len() - k,
{
    if k >= ss.len() - 1 {
    } else {
        lemma_min_idx_from(ss, k + 1);
        let m = min_idx_from(ss, k + 1);
        if ss[k].len() == 0 {
        } else if ss[m].len() == 0 {
        } else if rec_le(ss[k][0], ss[m][0]) {
            assert forall|j: int|
                k <= j < ss.len() && (#[trigger] ss[j]).len() > 0 implies rec_le(
                ss[k][0],
                ss[j][0],
            ) by {
                if j > k {
                    crate::record::lemma_rec_le_trans(ss[k][0], ss[m][0], ss[j][0]);
                }
            }
        } else {
            lemma_rec_total(ss[k][0], ss[m][0]);
            assert forall|j: int|
                k <= j < ss.len() && (#[trigger] ss[j]).len() > 0 implies rec_le(
                ss[m][0],
                ss[j][0],
            ) by {
                if j == k {
                    assert(rec_le(ss[m][0], ss[k][0]));
                }
            }
        }
    }
}

/// Replacing one stream changes the total by the difference.
pub proof fn lemma_total_len_update(ss: Seq<Seq<Rec>>, i: int, t: Seq<Rec>)
    requires
        0 <= i < ss.len(),
    ensures
        total_len(ss.update(i, t)) == total_len(ss) - ss[i].len() + t.len(),
    decreases ss.len(),
{
    if i == 0 {
        assert(ss.update(0, t).drop_first() =~= ss.drop_first());
    } else {
        assert(ss.update(i, t).drop_first() =~= ss.drop_first().update(i - 1, t));
        lemma_total_len_update(ss.drop_first(), i - 1, t);
    }
}

/// Every stream is at most the total.
pub proof fn lemma_total_len_ge(ss: Seq<Seq<Rec>>, i: int)
    requires
        0 <= i < ss.len(),
    ensures
        ss[i].len() <= total_len(ss),
    decreases ss.len(),
{
    if i > 0 {
        lemma_total_len_ge(ss.drop_first(), i - 1);
    }
}

/// The one merged stream: heads in `(key, timestamp)` order, the earliest
/// stream first on ties.
pub open spec fn merge_of(ss: Seq<Seq<Rec>>) -> Seq<Rec>
    decreases total_len(ss),
    when total_len(ss) >= 0
    via merge_of_decreases
{
    if ss.len() == 0 || total_len(ss) == 0 {
        Seq::empty()
    } else {
        let i = min_idx(ss);
        if ss[i].len() == 0 {
            Seq::empty()
        } else {
            seq![ss[i][0]] + merge_of(ss.update(i, ss[i].drop_first()))
        }
    }
}

#[via_fn]
proof fn merge_of_decreases(ss: Seq<Seq<Rec>>) {
    if ss.len() != 0 && total_len(ss) != 0 {
        let i = min_idx(ss);
        if ss[i].len() > 0 {
            lemma_min_idx_from(ss, 0);
            lemma_total_len_update(ss, i, ss[i].drop_first());
        }
    }
}

/// The views of each reader's records, in the given order.
pub open spec fn seqs_of(rs: Seq<SegmentReader>) -> Seq<Seq<Rec>> {
    rs.map_values(|x: SegmentReader| x@)
}

/// The current tails: each stream with its first `pos[i]` records served.
pub open spec fn tails_of(ss: Seq<Seq<Rec>>, pos: Seq<usize>) -> Seq<Seq<Rec>> {
    Seq::new(ss.len(), |i: int| ss[i].skip(pos[i] as int))
}

/// Merge the readers' records into one stream: exactly [`merge_of`].
pub fn merge(readers: &Vec<SegmentReader>) -> (r: Vec<Record>)
    ensures
        views_of(r@) == merge_of(seqs_of(readers@)),
{
    let n: usize = readers.len();
    let ghost ss = seqs_of(readers@);
    let mut out: Vec<Record> = Vec::new();
    if n == 0 {
        proof {
            assert(views_of(out@) =~= Seq::<Rec>::empty());
        }
        return out;
    }
    let mut pos: Vec<usize> = Vec::new();
    let mut z: usize = 0;
    while z < n
        invariant
            z <= n,
            pos@.len() == z,
            forall|i: int| 0 <= i < z ==> pos@[i] == 0,
        decreases n - z,
    {
        pos.push(0);
        z += 1;
    }
    proof {
        assert(tails_of(ss, pos@) =~= ss) by {
            assert forall|i: int| 0 <= i < ss.len() implies #[trigger] tails_of(ss, pos@)[i]
                == ss[i] by {
                assert(ss[i].skip(0) =~= ss[i]);
            }
        }
        assert(views_of(out@) + merge_of(tails_of(ss, pos@)) =~= merge_of(ss));
    }
    loop
        invariant
            n == readers@.len(),
            n >= 1,
            ss == seqs_of(readers@),
            pos@.len() == n,
            forall|i: int| 0 <= i < n ==> pos@[i] <= (#[trigger] ss[i]).len(),
            views_of(out@) + merge_of(tails_of(ss, pos@)) == merge_of(ss),
        decreases total_len(tails_of(ss, pos@)),
    {
        let ghost cur = tails_of(ss, pos@);
        // mirror min_idx_from, scanning from the back
        let mut m: usize = n - 1;
        let mut k: usize = n - 1;
        proof {
            assert(m == min_idx_from(cur, n - 1));
        }
        while k > 0
            invariant
                0 <= k <= n - 1,
                k <= m < n,
                n == readers@.len(),
                ss == seqs_of(readers@),
                pos@.len() == n,
                forall|i: int| 0 <= i < n ==> pos@[i] <= (#[trigger] ss[i]).len(),
                cur == tails_of(ss, pos@),
                m == min_idx_from(cur, k as int),
            decreases k,
        {
            k -= 1;
            let ke: bool = pos[k] >= readers[k].records.len();
            let me: bool = pos[m] >= readers[m].records.len();
            proof {
                assert(cur[k as int] == ss[k as int].skip(pos@[k as int] as int));
                assert(cur[m as int] == ss[m as int].skip(pos@[m as int] as int));
                assert(views_of(readers@[k as int].records@) == ss[k as int]);
                assert(views_of(readers@[m as int].records@) == ss[m as int]);
            }
            if ke {
            } else if me {
                m = k;
            } else {
                let rk = &readers[k].records[pos[k]];
                let rm = &readers[m].records[pos[m]];
                proof {
                    assert(cur[k as int][0] == ss[k as int][pos@[k as int] as int]);
                    assert(cur[m as int][0] == ss[m as int][pos@[m as int] as int]);
                    assert(rk@ == ss[k as int][pos@[k as int] as int]);
                    assert(rm@ == ss[m as int][pos@[m as int] as int]);
                    crate::order::lemma_lex_total(rk@.key, rm@.key);
                }
                let c = crate::order::bytes_cmp(rk.key.as_slice(), rm.key.as_slice());
                if c == 0 || (c == 1 && rk.timestamp <= rm.timestamp) {
                    m = k;
                }
            }
        }
        proof {
            lemma_min_idx_from(cur, 0);
        }
        if pos[m] >= readers[m].records.len() {
            // every stream is exhausted
            proof {
                assert(cur[m as int] == ss[m as int].skip(pos@[m as int] as int));
                assert(views_of(readers@[m as int].records@) == ss[m as int]);
                assert(cur[m as int].len() == 0);
                assert(merge_of(cur) == Seq::<Rec>::empty());
                assert(views_of(out@) + Seq::<Rec>::empty() =~= views_of(out@));
            }
            return out;
        }
        let rec = readers[m].records[pos[m]].duplicate();
        proof {
            assert(cur[m as int] == ss[m as int].skip(pos@[m as int] as int));
            assert(views_of(readers@[m as int].records@) == ss[m as int]);
            assert(rec@ == cur[m as int][0]);
            lemma_total_len_ge(cur, m as int);
            lemma_total_len_update(cur, m as int, cur[m as int].drop_first());
            let cur2 = cur.update(m as int, cur[m as int].drop_first());
            assert(merge_of(cur) == seq![cur[m as int][0]] + merge_of(cur2));
            assert(tails_of(ss, pos@.update(m as int, (pos@[m as int] + 1) as usize)) =~= cur2) by {
                let p2 = pos@.update(m as int, (pos@[m as int] + 1) as usize);
                assert forall|i: int| 0 <= i < ss.len() implies #[trigger] tails_of(ss, p2)[i]
                    == cur2[i] by {
                    if i == m {
                        assert(ss[i].skip((pos@[i] + 1) as int) =~= ss[i].skip(
                            pos@[i] as int,
                        ).drop_first());
                    }
                }
            }
            crate::record::lemma_views_push(out@, rec);
            assert(views_of(out@).push(rec@) + merge_of(cur2) =~= views_of(out@) + (seq![
                cur[m as int][0],
            ] + merge_of(cur2)));
        }
        out.push(rec);
        let pm: usize = pos[m];
        pos[m] = pm + 1;
    }
}

/// A nonzero total means some stream still holds a record.
pub proof fn lemma_total_nonzero_witness(ss: Seq<Seq<Rec>>)
    requires
        total_len(ss) > 0,
    ensures
        exists|j: int| 0 <= j < ss.len() && (#[trigger] ss[j]).len() > 0,
    decreases ss.len(),
{
    if ss[0].len() > 0 {
    } else {
        lemma_total_nonzero_witness(ss.drop_first());
        let j = choose|j: int| 0 <= j < ss.drop_first().len() && (#[trigger] ss.drop_first()[j]).len() > 0;
        assert(ss[j + 1].len() > 0);
    }
}

} // verus!
