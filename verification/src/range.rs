//! Key ranges and filters over record sequences.

use vstd::prelude::*;

use crate::order::lex_le;
use crate::order::lex_lt;
use crate::order::bytes_cmp;
use crate::record::views_of;
use crate::record::Rec;
use crate::record::Record;

verus! {

/// The mathematical shadow of a [`KeyBound`].
pub ghost enum Kb {
    Unbounded,
    Included(Seq<u8>),
    Excluded(Seq<u8>),
}

/// One end of a key range.
pub enum KeyBound {
    /// No bound at this end.
    Unbounded,
    /// The range includes this key.
    Included(Vec<u8>),
    /// The range stops short of this key.
    Excluded(Vec<u8>),
}

impl View for KeyBound {
    type V = Kb;

    open spec fn view(&self) -> Kb {
        match self {
            KeyBound::Unbounded => Kb::Unbounded,
            KeyBound::Included(k) => Kb::Included(k@),
            KeyBound::Excluded(k) => Kb::Excluded(k@),
        }
    }
}

/// Does `k` lie within `[lo, hi]` as the two bounds read?
pub open spec fn in_range(k: Seq<u8>, lo: Kb, hi: Kb) -> bool {
    (match lo {
        Kb::Unbounded => true,
        Kb::Included(l) => lex_le(l, k),
        Kb::Excluded(l) => lex_lt(l, k),
    }) && (match hi {
        Kb::Unbounded => true,
        Kb::Included(h) => lex_le(k, h),
        Kb::Excluded(h) => lex_lt(k, h),
    })
}

/// The records of `s` whose keys lie in the range, in their given order.
pub open spec fn range_filter(s: Seq<Rec>, lo: Kb, hi: Kb) -> Seq<Rec>
    decreases s.len(),
{
    if s.len() == 0 {
        Seq::empty()
    } else {
        (if in_range(s[0].key, lo, hi) {
            seq![s[0]]
        } else {
            Seq::empty()
        }) + range_filter(s.drop_first(), lo, hi)
    }
}

/// The records of `s` whose key equals `k`, in their given order.
pub open spec fn key_filter(s: Seq<Rec>, k: Seq<u8>) -> Seq<Rec>
    decreases s.len(),
{
    if s.len() == 0 {
        Seq::empty()
    } else {
        (if s[0].key == k {
            seq![s[0]]
        } else {
            Seq::empty()
        }) + key_filter(s.drop_first(), k)
    }
}

/// Does `k` lie within the bounds?
pub fn key_in_range(k: &[u8], lo: &KeyBound, hi: &KeyBound) -> (r: bool)
    ensures
        r == in_range(k@, lo@, hi@),
{
    let above = match lo {
        KeyBound::Unbounded => true,
        KeyBound::Included(l) => {
            proof {
                crate::order::lemma_lex_total(l@, k@);
            }
            bytes_cmp(l.as_slice(), k) != 2
        },
        KeyBound::Excluded(l) => bytes_cmp(l.as_slice(), k) == 0,
    };
    if !above {
        return false;
    }
    match hi {
        KeyBound::Unbounded => true,
        KeyBound::Included(h) => {
            proof {
                crate::order::lemma_lex_total(k@, h@);
            }
            bytes_cmp(k, h.as_slice()) != 2
        },
        KeyBound::Excluded(h) => bytes_cmp(k, h.as_slice()) == 0,
    }
}

/// Keep the records whose keys lie in the range.
pub fn filter_range(s: &Vec<Record>, lo: &KeyBound, hi: &KeyBound) -> (r: Vec<Record>)
    ensures
        views_of(r@) == range_filter(views_of(s@), lo@, hi@),
{
    let n: usize = s.len();
    let ghost all = views_of(s@);
    let mut out: Vec<Record> = Vec::new();
    let mut i: usize = 0;
    proof {
        assert(all.skip(0) =~= all);
    }
    while i < n
        invariant
            i <= n,
            n == s@.len(),
            all == views_of(s@),
            range_filter(all, lo@, hi@) == views_of(out@) + range_filter(
                all.skip(i as int),
                lo@,
                hi@,
            ),
        decreases n - i,
    {
        let ghost tail = all.skip(i as int);
        proof {
            assert(tail[0] == all[i as int]);
            assert(tail.drop_first() =~= all.skip(i + 1));
        }
        if key_in_range(s[i].key.as_slice(), lo, hi) {
            let rec = s[i].duplicate();
            proof {
                crate::record::lemma_views_push(out@, rec);
                assert(views_of(out@) + (seq![all[i as int]] + range_filter(
                    all.skip(i + 1),
                    lo@,
                    hi@,
                )) =~= views_of(out@).push(all[i as int]) + range_filter(all.skip(i + 1), lo@, hi@));
            }
            out.push(rec);
        } else {
            proof {
                assert(Seq::<Rec>::empty() + range_filter(all.skip(i + 1), lo@, hi@) =~= range_filter(
                    all.skip(i + 1),
                    lo@,
                    hi@,
                ));
            }
        }
        i += 1;
    }
    proof {
        assert(all.skip(n as int).len() == 0);
        assert(views_of(out@) + Seq::<Rec>::empty() =~= views_of(out@));
    }
    out
}

/// Keep the records whose key equals `k`.
pub fn filter_key(s: &Vec<Record>, k: &[u8]) -> (r: Vec<Record>)
    ensures
        views_of(r@) == key_filter(views_of(s@), k@),
{
    let n: usize = s.len();
    let ghost all = views_of(s@);
    let mut out: Vec<Record> = Vec::new();
    let mut i: usize = 0;
    proof {
        assert(all.skip(0) =~= all);
    }
    while i < n
        invariant
            i <= n,
            n == s@.len(),
            all == views_of(s@),
            key_filter(all, k@) == views_of(out@) + key_filter(all.skip(i as int), k@),
        decreases n - i,
    {
        let ghost tail = all.skip(i as int);
        proof {
            assert(tail[0] == all[i as int]);
            assert(tail.drop_first() =~= all.skip(i + 1));
        }
        if bytes_cmp(s[i].key.as_slice(), k) == 1 {
            let rec = s[i].duplicate();
            proof {
                crate::record::lemma_views_push(out@, rec);
                assert(views_of(out@) + (seq![all[i as int]] + key_filter(all.skip(i + 1), k@))
                    =~= views_of(out@).push(all[i as int]) + key_filter(all.skip(i + 1), k@));
            }
            out.push(rec);
        } else {
            proof {
                assert(Seq::<Rec>::empty() + key_filter(all.skip(i + 1), k@) =~= key_filter(
                    all.skip(i + 1),
                    k@,
                ));
            }
        }
        i += 1;
    }
    proof {
        assert(all.skip(n as int).len() == 0);
        assert(views_of(out@) + Seq::<Rec>::empty() =~= views_of(out@));
    }
    out
}

} // verus!
