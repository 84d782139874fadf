//! Records and their ordering.
//!
//! A record is `(key, timestamp, format, value)`.  Callers hand the value
//! in with the timestamp occupying its first eight bytes, big-endian; the
//! writer lifts the timestamp out of there.  Within one segment records
//! are strictly increasing in `(key, timestamp)`; a merged stream over
//! several segments is non-decreasing, equal `(key, timestamp)` pairs
//! ordered oldest segment first.

use vstd::prelude::*;

use crate::order::lex_lt;
use crate::order::lemma_lex_lt_trans;
use crate::order::lemma_lex_total;

verus! {

/// The mathematical shadow of a [`Record`].
pub ghost struct Rec {
    pub key: Seq<u8>,
    pub ts: u64,
    pub fmt: Seq<u8>,
    pub value: Seq<u8>,
}

/// One stored record.
#[derive(Debug)]
pub struct Record {
    pub key: Vec<u8>,
    pub timestamp: u64,
    pub format: Vec<u8>,
    pub value: Vec<u8>,
}

impl View for Record {
    type V = Rec;

    open spec fn view(&self) -> Rec {
        Rec { key: self.key@, ts: self.timestamp, fmt: self.format@, value: self.value@ }
    }
}

impl Record {
    /// Build a record from its four parts.
    pub fn new(key: Vec<u8>, timestamp: u64, format: Vec<u8>, value: Vec<u8>) -> (r: Record)
        ensures
            r@ == (Rec { key: key@, ts: timestamp, fmt: format@, value: value@ }),
    {
        Record { key, timestamp, format, value }
    }

    /// The record's key.
    pub fn key(&self) -> (r: &[u8])
        ensures
            r@ == self@.key,
    {
        self.key.as_slice()
    }

    /// Nanoseconds since the epoch.
    pub fn timestamp(&self) -> (r: u64)
        ensures
            r == self@.ts,
    {
        self.timestamp
    }

    /// The format string declaring the value's column layout.
    pub fn format(&self) -> (r: &[u8])
        ensures
            r@ == self@.fmt,
    {
        self.format.as_slice()
    }

    /// The value bytes exactly as they were handed in.
    pub fn value(&self) -> (r: &[u8])
        ensures
            r@ == self@.value,
    {
        self.value.as_slice()
    }

    /// An owned copy.
    pub fn duplicate(&self) -> (r: Record)
        ensures
            r@ == self@,
    {
        Record {
            key: copy_bytes(&self.key),
            timestamp: self.timestamp,
            format: copy_bytes(&self.format),
            value: copy_bytes(&self.value),
        }
    }
}

/// Copy a byte vector.
pub fn copy_bytes(v: &Vec<u8>) -> (r: Vec<u8>)
    ensures
        r@ == v@,
{
    vstd::slice::slice_to_vec(v.as_slice())
}

/// The views of a sequence of records.
pub open spec fn views_of(s: Seq<Record>) -> Seq<Rec> {
    s.map_values(|r: Record| r@)
}

pub proof fn lemma_views_push(s: Seq<Record>, r: Record)
    ensures
        views_of(s.push(r)) == views_of(s).push(r@),
{
    assert(views_of(s.push(r)) =~= views_of(s).push(r@));
}

pub proof fn lemma_views_concat(a: Seq<Record>, b: Seq<Record>)
    ensures
        views_of(a + b) == views_of(a) + views_of(b),
{
    assert(views_of(a + b) =~= views_of(a) + views_of(b));
}

/// `a` sorts strictly before `b`: earlier key, or same key and earlier
/// timestamp.
pub open spec fn rec_lt(a: Rec, b: Rec) -> bool {
    lex_lt(a.key, b.key) || (a.key == b.key && a.ts < b.ts)
}

/// `a` sorts no later than `b`; records agreeing on `(key, timestamp)`
/// count as equal here whatever their other fields hold.
pub open spec fn rec_le(a: Rec, b: Rec) -> bool {
    rec_lt(a, b) || (a.key == b.key && a.ts == b.ts)
}

/// Strictly increasing in `(key, timestamp)`: what one segment holds.
/// Keys never go back, and within one key timestamps strictly rise.
pub open spec fn well_ordered(s: Seq<Rec>) -> bool {
    forall|i: int| 0 <= i < s.len() - 1 ==> rec_lt(#[trigger] s[i], s[i + 1])
}

/// Non-decreasing in `(key, timestamp)`: what a merged stream yields.
pub open spec fn sorted_le(s: Seq<Rec>) -> bool {
    forall|i: int| 0 <= i < s.len() - 1 ==> rec_le(#[trigger] s[i], s[i + 1])
}

pub proof fn lemma_rec_le_trans(a: Rec, b: Rec, c: Rec)
    requires
        rec_le(a, b),
        rec_le(b, c),
    ensures
        rec_le(a, c),
{
    if lex_lt(a.key, b.key) && lex_lt(b.key, c.key) {
        lemma_lex_lt_trans(a.key, b.key, c.key);
    }
}

pub proof fn lemma_rec_lt_trans(a: Rec, b: Rec, c: Rec)
    requires
        rec_lt(a, b),
        rec_lt(b, c),
    ensures
        rec_lt(a, c),
{
    if lex_lt(a.key, b.key) && lex_lt(b.key, c.key) {
        lemma_lex_lt_trans(a.key, b.key, c.key);
    }
}

/// Any two records are comparable by `rec_le`.
pub proof fn lemma_rec_total(a: Rec, b: Rec)
    ensures
        rec_le(a, b) || rec_le(b, a),
{
    lemma_lex_total(a.key, b.key);
}

/// In a strictly ordered sequence every earlier record sorts strictly
/// before every later one.
pub proof fn lemma_well_ordered_pairwise(s: Seq<Rec>, i: int, j: int)
    requires
        well_ordered(s),
        0 <= i < j < s.len(),
    ensures
        rec_lt(s[i], s[j]),
    decreases j - i,
{
    if j > i + 1 {
        lemma_well_ordered_pairwise(s, i, j - 1);
        lemma_rec_lt_trans(s[i], s[j - 1], s[j]);
    }
}

/// Appending a record strictly after the last keeps strict order.
pub proof fn lemma_well_ordered_push(s: Seq<Rec>, r: Rec)
    requires
        well_ordered(s),
        s.len() > 0 ==> rec_lt(s.last(), r),
    ensures
        well_ordered(s.push(r)),
{
    let t = s.push(r);
    assert forall|i: int| 0 <= i < t.len() - 1 implies rec_lt(#[trigger] t[i], t[i + 1]) by {
        if i < s.len() - 1 {
            assert(t[i] == s[i]);
            assert(t[i + 1] == s[i + 1]);
        } else {
            assert(t[i] == s.last());
            assert(t[i + 1] == r);
        }
    }
}

} // verus!
