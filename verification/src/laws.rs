//! The store's global guarantees, stated and proved once.
//!
//! Each lemma here speaks only through the spec functions the executable
//! contracts use, so what a caller can conclude about a segment image, a
//! merged stream or a compaction is written down in one place.

use vstd::prelude::*;

use crate::codec::seg_dec;
use crate::merge::lemma_min_idx_from;
use crate::merge::lemma_total_len_update;
use crate::merge::merge_of;
use crate::merge::min_idx;
use crate::merge::total_len;
use crate::merge::lemma_total_nonzero_witness;
use crate::range::range_filter;
use crate::range::Kb;
use crate::record::lemma_well_ordered_pairwise;
use crate::record::rec_le;
use crate::record::sorted_le;
use crate::record::well_ordered;
use crate::record::Rec;
use vstd::multiset::Multiset;
use vstd::seq_lib::lemma_multiset_commutative;

verus! {

/// Within one key of a strictly ordered segment, timestamps strictly
/// rise: any earlier record of the same key carries a strictly smaller
/// timestamp.
pub proof fn lemma_same_key_timestamps(s: Seq<Rec>, i: int, j: int)
    requires
        well_ordered(s),
        0 <= i < j < s.len(),
        s[i].key == s[j].key,
    ensures
        s[i].ts < s[j].ts,
{
    lemma_well_ordered_pairwise(s, i, j);
    crate::order::lemma_lex_lt_irrefl(s[i].key);
}

/// Merging one stream returns it unchanged.
pub proof fn lemma_merge_single(s: Seq<Rec>)
    ensures
        merge_of(seq![s]) == s,
    decreases s.len(),
{
    let ss = seq![s];
    assert(total_len(ss) == s.len() + total_len(ss.drop_first()));
    if s.len() == 0 {
        assert(merge_of(ss) =~= s);
    } else {
        assert(min_idx(ss) == 0);
        assert(ss.update(0, s.drop_first()) =~= seq![s.drop_first()]);
        lemma_merge_single(s.drop_first());
        assert(seq![s[0]] + s.drop_first() =~= s);
    }
}

/// Compacting what one major compaction produced reproduces it: the
/// merged view of a database holding only the compaction's output is
/// that output itself.
pub proof fn lemma_compaction_idempotent(ss: Seq<Seq<Rec>>)
    ensures
        merge_of(seq![merge_of(ss)]) == merge_of(ss),
{
    lemma_merge_single(merge_of(ss));
}

/// An unbounded range keeps every record.
pub proof fn lemma_range_filter_all(s: Seq<Rec>)
    ensures
        range_filter(s, Kb::Unbounded, Kb::Unbounded) == s,
    decreases s.len(),
{
    if s.len() == 0 {
        assert(range_filter(s, Kb::Unbounded, Kb::Unbounded) =~= s);
    } else {
        lemma_range_filter_all(s.drop_first());
        assert(seq![s[0]] + s.drop_first() =~= s);
    }
}

/// Round trip: a committed segment image read back as a whole database
/// yields exactly the records that were written, in their order.
pub proof fn lemma_round_trip(rs: Seq<Rec>, b: Seq<u8>)
    requires
        seg_dec(b) == Some(rs),
    ensures
        range_filter(merge_of(seq![rs]), Kb::Unbounded, Kb::Unbounded) == rs,
{
    lemma_merge_single(rs);
    lemma_range_filter_all(rs);
}

/// Losing any subset of a database's segment images leaves every
/// remaining image still decodable: the database still opens.
pub proof fn lemma_crash_tolerance(imgs: Seq<Seq<u8>>, sub: Seq<Seq<u8>>)
    requires
        forall|i: int| 0 <= i < imgs.len() ==> seg_dec(#[trigger] imgs[i]) is Some,
        forall|j: int|
            0 <= j < sub.len() ==> exists|i: int| 0 <= i < imgs.len() && #[trigger] sub[j] == imgs[i],
    ensures
        forall|j: int| 0 <= j < sub.len() ==> seg_dec(#[trigger] sub[j]) is Some,
{
    assert forall|j: int| 0 <= j < sub.len() implies seg_dec(#[trigger] sub[j]) is Some by {
        let i = choose|i: int| 0 <= i < imgs.len() && sub[j] == imgs[i];
        assert(seg_dec(imgs[i]) is Some);
    }
}

/// The records each stream still holds, all together.
pub open spec fn msum(ss: Seq<Seq<Rec>>) -> Multiset<Rec>
    decreases ss.len(),
{
    if ss.len() == 0 {
        Multiset::empty()
    } else {
        ss[0].to_multiset().add(msum(ss.drop_first()))
    }
}

proof fn lemma_msum_empty(ss: Seq<Seq<Rec>>)
    requires
        total_len(ss) == 0,
    ensures
        msum(ss) =~= Multiset::empty(),
    decreases ss.len(),
{
    if ss.len() > 0 {
        broadcast use vstd::seq_lib::group_to_multiset_ensures;

        lemma_msum_empty(ss.drop_first());
        assert(ss[0].to_multiset().len() == 0);
    }
}

proof fn lemma_msum_update(ss: Seq<Seq<Rec>>, i: int)
    requires
        0 <= i < ss.len(),
        ss[i].len() > 0,
    ensures
        msum(ss) =~= msum(ss.update(i, ss[i].drop_first())).insert(ss[i][0]),
    decreases ss.len(),
{
    broadcast use vstd::seq_lib::group_to_multiset_ensures;
    broadcast use vstd::multiset::group_multiset_axioms;

    if i == 0 {
        assert(ss.update(0, ss[0].drop_first()).drop_first() =~= ss.drop_first());
        assert(ss[0].remove(0) =~= ss[0].drop_first());
        assert(ss[0].remove(0).to_multiset() =~= ss[0].to_multiset().remove(ss[0][0]));
        assert(ss[0].contains(ss[0][0]));
        assert(ss[0].to_multiset().count(ss[0][0]) > 0);
        assert(ss[0].to_multiset() =~= ss[0].drop_first().to_multiset().insert(ss[0][0]));
    } else {
        assert(ss.update(i, ss[i].drop_first()).drop_first() =~= ss.drop_first().update(
            i - 1,
            ss[i].drop_first(),
        ));
        assert(ss.drop_first()[i - 1] == ss[i]);
        lemma_msum_update(ss.drop_first(), i - 1);
    }
}

/// The merged stream holds exactly the records of all the streams
/// together: nothing is lost, nothing invented.
pub proof fn lemma_merge_multiset(ss: Seq<Seq<Rec>>)
    ensures
        merge_of(ss).to_multiset() =~= msum(ss),
    decreases total_len(ss),
{
    broadcast use vstd::seq_lib::group_to_multiset_ensures;
    broadcast use vstd::multiset::group_multiset_axioms;

    if ss.len() == 0 || total_len(ss) == 0 {
        if ss.len() != 0 {
            lemma_msum_empty(ss);
        }
    } else {
        let i = min_idx(ss);
        lemma_min_idx_from(ss, 0);
        if ss[i].len() == 0 {
            lemma_total_nonzero_witness(ss);
            let w = choose|j: int| 0 <= j < ss.len() && (#[trigger] ss[j]).len() > 0;
            assert(ss[w].len() == 0);
        }
        let ss2 = ss.update(i, ss[i].drop_first());
        lemma_total_len_update(ss, i, ss[i].drop_first());
        lemma_merge_multiset(ss2);
        lemma_msum_update(ss, i);
        lemma_multiset_commutative(seq![ss[i][0]], merge_of(ss2));
        assert(seq![ss[i][0]] =~= Seq::<Rec>::empty().push(ss[i][0]));
        assert(seq![ss[i][0]].to_multiset() =~= Multiset::empty().insert(ss[i][0]));
    }
}

proof fn lemma_well_ordered_drop(s: Seq<Rec>)
    requires
        well_ordered(s),
        s.len() > 0,
    ensures
        well_ordered(s.drop_first()),
{
    assert forall|i: int|
        0 <= i < s.drop_first().len() - 1 implies crate::record::rec_lt(
        #[trigger] s.drop_first()[i],
        s.drop_first()[i + 1],
    ) by {
        assert(s.drop_first()[i] == s[i + 1]);
        assert(s.drop_first()[i + 1] == s[i + 2]);
        assert(crate::record::rec_lt(s[i + 1], s[i + 2]));
    }
}

/// Merging strictly ordered streams yields a non-decreasing stream: keys
/// never go back, and within one key timestamps never go back.
pub proof fn lemma_merge_sorted(ss: Seq<Seq<Rec>>)
    requires
        forall|i: int| 0 <= i < ss.len() ==> well_ordered(#[trigger] ss[i]),
    ensures
        sorted_le(merge_of(ss)),
    decreases total_len(ss),
{
    if ss.len() == 0 || total_len(ss) == 0 {
    } else {
        let i = min_idx(ss);
        lemma_min_idx_from(ss, 0);
        if ss[i].len() == 0 {
            lemma_total_nonzero_witness(ss);
            let w = choose|j: int| 0 <= j < ss.len() && (#[trigger] ss[j]).len() > 0;
            assert(ss[w].len() == 0);
        }
        let h = ss[i][0];
        let ss2 = ss.update(i, ss[i].drop_first());
        lemma_total_len_update(ss, i, ss[i].drop_first());
        assert forall|j: int| 0 <= j < ss2.len() implies well_ordered(#[trigger] ss2[j]) by {
            if j == i {
                lemma_well_ordered_drop(ss[i]);
            }
        }
        lemma_merge_sorted(ss2);
        let rest = merge_of(ss2);
        let out = seq![h] + rest;
        assert(merge_of(ss) == out);
        if rest.len() > 0 {
            // the next head served is some stream's head, and h is below
            // every head
            assert(total_len(ss2) > 0);
            let i2 = min_idx(ss2);
            lemma_min_idx_from(ss2, 0);
            if ss2[i2].len() == 0 {
                lemma_total_nonzero_witness(ss2);
                let w = choose|j: int| 0 <= j < ss2.len() && (#[trigger] ss2[j]).len() > 0;
                assert(ss2[w].len() == 0);
            }
            assert(rest[0] == ss2[i2][0]);
            if i2 == i {
                assert(ss2[i2][0] == ss[i][1]);
                lemma_well_ordered_pairwise(ss[i], 0, 1);
                assert(rec_le(h, rest[0]));
            } else {
                assert(ss2[i2] == ss[i2]);
                assert(rec_le(h, rest[0]));
            }
        }
        assert forall|k: int| 0 <= k < out.len() - 1 implies rec_le(#[trigger] out[k], out[k + 1]) by {
            if k == 0 {
                if rest.len() > 0 {
                    assert(out[0] == h);
                    assert(out[1] == rest[0]);
                }
            } else {
                assert(out[k] == rest[k - 1]);
                assert(out[k + 1] == rest[k]);
                assert(rec_le(rest[k - 1], rest[k]));
            }
        }
    }
}

} // verus!
