//! Lexicographic order on byte strings.
//!
//! Keys are compared byte for byte, shorter prefixes first.  This order
//! drives every sortedness claim in the store: the order of records inside
//! a segment, the order of the block index, and the order of the merged
//! stream.

use vstd::prelude::*;

verus! {

/// `a` sorts strictly before `b`, byte for byte, a proper prefix first.
pub open spec fn lex_lt(a: Seq<u8>, b: Seq<u8>) -> bool
    decreases a.len(),
{
    if b.len() == 0 {
        false
    } else if a.len() == 0 {
        true
    } else if a[0] < b[0] {
        true
    } else if a[0] > b[0] {
        false
    } else {
        lex_lt(a.drop_first(), b.drop_first())
    }
}

/// `a` sorts no later than `b`.
pub open spec fn lex_le(a: Seq<u8>, b: Seq<u8>) -> bool {
    lex_lt(a, b) || a == b
}

/// Comparing two byte strings is decided by their first difference: equal
/// prefixes of any length can be dropped from both sides.
pub proof fn lemma_lex_lt_skip(a: Seq<u8>, b: Seq<u8>, i: int)
    requires
        0 <= i <= a.len(),
        i <= b.len(),
        a.subrange(0, i) == b.subrange(0, i),
    ensures
        lex_lt(a, b) == lex_lt(a.skip(i), b.skip(i)),
    decreases i,
{
    if i == 0 {
        assert(a.skip(0) =~= a);
        assert(b.skip(0) =~= b);
    } else {
        assert forall|j: int| 0 <= j < i implies a[j] == b[j] by {
            assert(a.subrange(0, i)[j] == b.subrange(0, i)[j]);
            assert(a.subrange(0, i)[j] == a[j]);
            assert(b.subrange(0, i)[j] == b[j]);
        }
        assert(a[0] == b[0]);
        assert(a.drop_first().subrange(0, i - 1) =~= b.drop_first().subrange(0, i - 1)) by {
            assert forall|j: int| 0 <= j < i - 1 implies #[trigger] a.drop_first().subrange(
                0,
                i - 1,
            )[j] == b.drop_first().subrange(0, i - 1)[j] by {
                assert(a.drop_first()[j] == a[j + 1]);
                assert(b.drop_first()[j] == b[j + 1]);
            }
        }
        lemma_lex_lt_skip(a.drop_first(), b.drop_first(), i - 1);
        assert(a.drop_first().skip(i - 1) =~= a.skip(i));
        assert(b.drop_first().skip(i - 1) =~= b.skip(i));
        assert(lex_lt(a, b) == lex_lt(a.drop_first(), b.drop_first()));
    }
}

/// The order is strict: nothing sorts before itself.
pub proof fn lemma_lex_lt_irrefl(a: Seq<u8>)
    ensures
        !lex_lt(a, a),
    decreases a.len(),
{
    if a.len() > 0 {
        lemma_lex_lt_irrefl(a.drop_first());
    }
}

/// Any two byte strings are comparable.
pub proof fn lemma_lex_total(a: Seq<u8>, b: Seq<u8>)
    ensures
        lex_lt(a, b) || lex_lt(b, a) || a == b,
    decreases a.len(),
{
    if a.len() == 0 && b.len() == 0 {
        assert(a =~= b);
    } else if a.len() > 0 && b.len() > 0 && a[0] == b[0] {
        lemma_lex_total(a.drop_first(), b.drop_first());
        if a.drop_first() == b.drop_first() {
            assert(a =~= b) by {
                assert(a.drop_first().len() == b.drop_first().len());
                assert(a.len() == b.len());
                assert forall|j: int| 0 <= j < a.len() implies a[j] == b[j] by {
                    if j > 0 {
                        assert(a.drop_first()[j - 1] == b.drop_first()[j - 1]);
                        assert(a.drop_first()[j - 1] == a[j]);
                        assert(b.drop_first()[j - 1] == b[j]);
                    }
                }
            }
        }
    }
}

/// At most one direction of the strict order can hold.
pub proof fn lemma_lex_lt_asym(a: Seq<u8>, b: Seq<u8>)
    ensures
        !(lex_lt(a, b) && lex_lt(b, a)),
    decreases a.len(),
{
    if a.len() > 0 && b.len() > 0 && a[0] == b[0] {
        lemma_lex_lt_asym(a.drop_first(), b.drop_first());
    }
}

/// The strict order is transitive.
pub proof fn lemma_lex_lt_trans(a: Seq<u8>, b: Seq<u8>, c: Seq<u8>)
    requires
        lex_lt(a, b),
        lex_lt(b, c),
    ensures
        lex_lt(a, c),
    decreases a.len(),
{
    if a.len() == 0 {
    } else if a[0] == b[0] && b[0] == c[0] {
        lemma_lex_lt_trans(a.drop_first(), b.drop_first(), c.drop_first());
    }
}

/// Compare two byte strings; `0` means the first sorts earlier, `1` equal,
/// `2` later.
pub fn bytes_cmp(a: &[u8], b: &[u8]) -> (r: u8)
    ensures
        (r == 0) == lex_lt(a@, b@),
        (r == 1) == (a@ == b@),
        (r == 2) == lex_lt(b@, a@),
{
    let alen: usize = a.len();
    let blen: usize = b.len();
    let mut i: usize = 0;
    while i < alen && i < blen
        invariant
            i <= alen,
            i <= blen,
            alen == a@.len(),
            blen == b@.len(),
            a@.subrange(0, i as int) == b@.subrange(0, i as int),
        decreases alen - i,
    {
        let ghost ii: int = i as int;
        let x: u8 = a[i];
        let y: u8 = b[i];
        if x != y {
            proof {
                lemma_lex_lt_skip(a@, b@, ii);
                lemma_lex_lt_skip(b@, a@, ii);
                assert(a@.skip(ii)[0] == a@[ii]);
                assert(b@.skip(ii)[0] == b@[ii]);
                assert(a@.skip(ii).len() > 0);
                assert(b@.skip(ii).len() > 0);
                if x < y {
                    assert(lex_lt(a@.skip(ii), b@.skip(ii)));
                    assert(!lex_lt(b@.skip(ii), a@.skip(ii)));
                } else {
                    assert(lex_lt(b@.skip(ii), a@.skip(ii)));
                    assert(!lex_lt(a@.skip(ii), b@.skip(ii)));
                }
                assert(a@[ii] != b@[ii]);
                assert(a@ != b@);
            }
            if x < y {
                return 0;
            }
            return 2;
        }
        proof {
            assert(a@.subrange(0, ii + 1) =~= b@.subrange(0, ii + 1)) by {
                assert forall|j: int| 0 <= j < ii + 1 implies #[trigger] a@.subrange(0, ii + 1)[j]
                    == b@.subrange(0, ii + 1)[j] by {
                    if j < ii {
                        assert(a@.subrange(0, ii)[j] == b@.subrange(0, ii)[j]);
                        assert(a@.subrange(0, ii)[j] == a@[j]);
                        assert(b@.subrange(0, ii)[j] == b@[j]);
                    }
                }
            }
        }
        i += 1;
    }
    let ghost ii: int = i as int;
    proof {
        lemma_lex_lt_skip(a@, b@, ii);
        lemma_lex_lt_skip(b@, a@, ii);
    }
    if alen == blen {
        proof {
            assert(a@ =~= b@) by {
                assert forall|j: int| 0 <= j < a@.len() implies a@[j] == b@[j] by {
                    assert(a@.subrange(0, ii)[j] == b@.subrange(0, ii)[j]);
                    assert(a@.subrange(0, ii)[j] == a@[j]);
                    assert(b@.subrange(0, ii)[j] == b@[j]);
                }
            }
            assert(a@.skip(ii).len() == 0);
            assert(b@.skip(ii).len() == 0);
            assert(!lex_lt(a@.skip(ii), b@.skip(ii)));
            assert(!lex_lt(b@.skip(ii), a@.skip(ii)));
        }
        1
    } else if alen < blen {
        proof {
            assert(a@.skip(ii).len() == 0);
            assert(b@.skip(ii).len() > 0);
            assert(lex_lt(a@.skip(ii), b@.skip(ii)));
            assert(!lex_lt(b@.skip(ii), a@.skip(ii)));
            assert(a@.len() != b@.len());
            assert(a@ != b@);
        }
        0
    } else {
        proof {
            assert(b@.skip(ii).len() == 0);
            assert(a@.skip(ii).len() > 0);
            assert(lex_lt(b@.skip(ii), a@.skip(ii)));
            assert(!lex_lt(a@.skip(ii), b@.skip(ii)));
            assert(a@.len() != b@.len());
            assert(a@ != b@);
        }
        2
    }
}

} // verus!
