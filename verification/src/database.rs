//! The database: a snapshot of segment images served as one merged stream.
//!
//! A database directory holds an optional `main` segment, transaction
//! segments named `tx.<nanos>.<seq>`, and working files.  The caller
//! lists the directory and hands each file's name and bytes in, the
//! transactions in ascending name order as a directory listing gives
//! them; the snapshot keeps `main` first, then the transactions, and
//! drops everything else.  That order is the age order the merge's
//! tie-break preserves.

use vstd::prelude::*;

use crate::merge::merge;
use crate::merge::merge_of;
use crate::merge::seqs_of;
use crate::range::key_filter;
use crate::range::range_filter;
use crate::range::KeyBound;
use crate::record::views_of;
use crate::record::Rec;
use crate::record::Record;
use crate::segment::add_check;
use crate::segment::rec_of_input;
use crate::segment::SegmentReader;
use crate::segment::Writer;
use crate::codec::seg_dec;
use crate::wire::be64_dec;
use crate::wire::read_u64_be;
use crate::Error;

verus! {

/// The four bytes of the accumulator segment's name.
pub open spec fn main_name() -> Seq<u8> {
    seq![0x6du8, 0x61u8, 0x69u8, 0x6eu8]
}

/// Does the name open with `tx.`, marking a transaction segment?
pub open spec fn is_txn_name(n: Seq<u8>) -> bool {
    n.len() >= 3 && n[0] == 0x74u8 && n[1] == 0x78u8 && n[2] == 0x2eu8
}

/// The view of a list of named images.
pub open spec fn pairs_view(files: Seq<(Vec<u8>, Vec<u8>)>) -> Seq<(Seq<u8>, Seq<u8>)> {
    files.map_values(|p: (Vec<u8>, Vec<u8>)| (p.0@, p.1@))
}

/// The entries named `main`, in given order.
pub open spec fn mains_of(fs: Seq<(Seq<u8>, Seq<u8>)>) -> Seq<(Seq<u8>, Seq<u8>)>
    decreases fs.len(),
{
    if fs.len() == 0 {
        Seq::empty()
    } else {
        (if fs[0].0 == main_name() {
            seq![fs[0]]
        } else {
            Seq::empty()
        }) + mains_of(fs.drop_first())
    }
}

/// The entries named `tx.*`, in given order.
pub open spec fn txns_of(fs: Seq<(Seq<u8>, Seq<u8>)>) -> Seq<(Seq<u8>, Seq<u8>)>
    decreases fs.len(),
{
    if fs.len() == 0 {
        Seq::empty()
    } else {
        (if is_txn_name(fs[0].0) {
            seq![fs[0]]
        } else {
            Seq::empty()
        }) + txns_of(fs.drop_first())
    }
}

/// The snapshot: `main` first if it is wanted and there, then the
/// transactions in given order.
pub open spec fn snapshot_of(fs: Seq<(Seq<u8>, Seq<u8>)>, with_main: bool) -> Seq<
    (Seq<u8>, Seq<u8>),
> {
    (if with_main {
        mains_of(fs)
    } else {
        Seq::empty()
    }) + txns_of(fs)
}

/// Is the name exactly `main`?
pub fn name_is_main(n: &[u8]) -> (r: bool)
    ensures
        r == (n@ == main_name()),
{
    let r = n.len() == 4 && n[0] == 0x6du8 && n[1] == 0x61u8 && n[2] == 0x69u8 && n[3] == 0x6eu8;
    proof {
        if r {
            assert(n@ =~= main_name());
        } else {
            if n@ == main_name() {
                assert(n@[0] == 0x6du8 && n@[1] == 0x61u8 && n@[2] == 0x69u8 && n@[3] == 0x6eu8);
            }
        }
    }
    r
}

/// Does the name open with `tx.`?
pub fn name_is_txn(n: &[u8]) -> (r: bool)
    ensures
        r == is_txn_name(n@),
{
    n.len() >= 3 && n[0] == 0x74u8 && n[1] == 0x78u8 && n[2] == 0x2eu8
}

/// An open database: the snapshot's names and one reader per segment,
/// oldest first.
pub struct DatabaseReader {
    /// The snapshot's file names, `main` first where taken.
    pub names: Vec<Vec<u8>>,
    /// One decoded segment per name.
    pub readers: Vec<SegmentReader>,
}

impl View for DatabaseReader {
    type V = Seq<Seq<Rec>>;

    open spec fn view(&self) -> Seq<Seq<Rec>> {
        seqs_of(self.readers@)
    }
}

impl DatabaseReader {
    /// The snapshot the reader was opened on corresponds, name for name
    /// and record for record, to the given files.
    pub open spec fn opened_on(self, fs: Seq<(Seq<u8>, Seq<u8>)>, with_main: bool) -> bool {
        let snap = snapshot_of(fs, with_main);
        &&& self.names@.map_values(|v: Vec<u8>| v@) == snap.map_values(
            |p: (Seq<u8>, Seq<u8>)| p.0,
        )
        &&& self@.len() == snap.len()
        &&& forall|i: int| 0 <= i < snap.len() ==> seg_dec((#[trigger] snap[i]).1) == Some(self@[i])
    }

    /// Open a snapshot including `main`: give each file's name and bytes,
    /// transactions in ascending name order.
    pub fn new(files: &Vec<(Vec<u8>, Vec<u8>)>) -> (r: Result<DatabaseReader, Error>)
        ensures
            (match r {
                Ok(db) => db.opened_on(pairs_view(files@), true),
                Err(e) => e == Error::CorruptSegment && exists|i: int|
                    0 <= i < snapshot_of(pairs_view(files@), true).len() && seg_dec(
                        (#[trigger] snapshot_of(pairs_view(files@), true)[i]).1,
                    ) is None,
            }),
    {
        Self::open(files, true)
    }

    /// Open a snapshot of the transactions alone, leaving `main` out:
    /// what a minor compaction reads.
    pub fn without_main_db(files: &Vec<(Vec<u8>, Vec<u8>)>) -> (r: Result<DatabaseReader, Error>)
        ensures
            (match r {
                Ok(db) => db.opened_on(pairs_view(files@), false),
                Err(e) => e == Error::CorruptSegment && exists|i: int|
                    0 <= i < snapshot_of(pairs_view(files@), false).len() && seg_dec(
                        (#[trigger] snapshot_of(pairs_view(files@), false)[i]).1,
                    ) is None,
            }),
    {
        Self::open(files, false)
    }

    fn open(files: &Vec<(Vec<u8>, Vec<u8>)>, with_main: bool) -> (r: Result<DatabaseReader, Error>)
        ensures
            (match r {
                Ok(db) => db.opened_on(pairs_view(files@), with_main),
                Err(e) => e == Error::CorruptSegment && exists|i: int|
                    0 <= i < snapshot_of(pairs_view(files@), with_main).len() && seg_dec(
                        (#[trigger] snapshot_of(pairs_view(files@), with_main)[i]).1,
                    ) is None,
            }),
    {
        let ghost fs = pairs_view(files@);
        let ghost snap = snapshot_of(fs, with_main);
        let n: usize = files.len();
        let mut names: Vec<Vec<u8>> = Vec::new();
        let mut readers: Vec<SegmentReader> = Vec::new();
        let ghost mut built: Seq<(Seq<u8>, Seq<u8>)> = Seq::empty();
        if with_main {
            let mut i: usize = 0;
            proof {
                assert(fs.skip(0) =~= fs);
                assert(built + mains_of(fs.skip(0)) =~= mains_of(fs));
            }
            while i < n
                invariant
                    with_main,
                    i <= n,
                    n == files@.len(),
                    fs == pairs_view(files@),
                    mains_of(fs) == built + mains_of(fs.skip(i as int)),
                    names@.map_values(|v: Vec<u8>| v@) == built.map_values(
                        |p: (Seq<u8>, Seq<u8>)| p.0,
                    ),
                    readers@.len() == built.len(),
                    forall|j: int|
                        0 <= j < built.len() ==> seg_dec((#[trigger] built[j]).1) == Some(
                            seqs_of(readers@)[j],
                        ),
                decreases n - i,
            {
                let ghost tail = fs.skip(i as int);
                proof {
                    assert(tail[0] == fs[i as int]);
                    assert(tail.drop_first() =~= fs.skip(i + 1));
                    assert(fs[i as int] == (files@[i as int].0@, files@[i as int].1@));
                }
                if name_is_main(files[i].0.as_slice()) {
                    let rd = match SegmentReader::open(files[i].1.as_slice()) {
                        Ok(rd) => rd,
                        Err(e) => {
                            proof {
                                assert(fs[i as int].0 == main_name());
                                assert(fs[i as int].1 == files@[i as int].1@);
                                lemma_mains_contains(fs, i as int);
                                assert(mains_of(fs).contains(fs[i as int]));
                                lemma_snapshot_contains(fs, with_main, fs[i as int]);
                                let w = choose|w: int|
                                    0 <= w < snapshot_of(fs, with_main).len() && snapshot_of(
                                        fs,
                                        with_main,
                                    )[w] == fs[i as int];
                                assert(seg_dec(snapshot_of(fs, with_main)[w].1) is None);
                            }
                            return Err(e);
                        },
                    };
                    let nm = crate::codec::subvec(
                        files[i].0.as_slice(),
                        0,
                        files[i].0.len(),
                    );
                    proof {
                        assert(nm@ =~= fs[i as int].0);
                        assert((built + seq![fs[i as int]]).map_values(
                            |p: (Seq<u8>, Seq<u8>)| p.0,
                        ) =~= built.map_values(|p: (Seq<u8>, Seq<u8>)| p.0).push(fs[i as int].0));
                        assert(names@.push(nm).map_values(|v: Vec<u8>| v@) =~= names@.map_values(
                            |v: Vec<u8>| v@,
                        ).push(nm@));
                        assert(seqs_of(readers@.push(rd)) =~= seqs_of(readers@).push(rd@));
                        assert(built + (seq![fs[i as int]] + mains_of(fs.skip(i + 1))) =~= (built
                            + seq![fs[i as int]]) + mains_of(fs.skip(i + 1)));
                        built = built + seq![fs[i as int]];
                    }
                    names.push(nm);
                    readers.push(rd);
                } else {
                    proof {
                        assert(Seq::<(Seq<u8>, Seq<u8>)>::empty() + mains_of(fs.skip(i + 1))
                            =~= mains_of(fs.skip(i + 1)));
                    }
                }
                i += 1;
            }
            proof {
                assert(mains_of(fs.skip(n as int)).len() == 0);
                assert(built + mains_of(fs.skip(n as int)) =~= built);
                assert(built =~= mains_of(fs));
            }
        }
        proof {
            if !with_main {
                assert(built =~= (if with_main {
                    mains_of(fs)
                } else {
                    Seq::<(Seq<u8>, Seq<u8>)>::empty()
                }));
            }
        }
        let ghost head = built;
        let mut i: usize = 0;
        proof {
            assert(fs.skip(0) =~= fs);
            assert(head + (Seq::<(Seq<u8>, Seq<u8>)>::empty() + txns_of(fs.skip(0))) =~= head
                + txns_of(fs));
        }
        while i < n
            invariant
                i <= n,
                n == files@.len(),
                fs == pairs_view(files@),
                snapshot_of(fs, with_main) == snap,
                head + txns_of(fs) == built + txns_of(fs.skip(i as int)),
                names@.map_values(|v: Vec<u8>| v@) == built.map_values(|p: (Seq<u8>, Seq<u8>)| p.0),
                readers@.len() == built.len(),
                forall|j: int|
                    0 <= j < built.len() ==> seg_dec((#[trigger] built[j]).1) == Some(
                        seqs_of(readers@)[j],
                    ),
                snap == head + txns_of(fs),
            decreases n - i,
        {
            let ghost tail = fs.skip(i as int);
            proof {
                assert(tail[0] == fs[i as int]);
                assert(tail.drop_first() =~= fs.skip(i + 1));
                assert(fs[i as int] == (files@[i as int].0@, files@[i as int].1@));
            }
            if name_is_txn(files[i].0.as_slice()) {
                let rd = match SegmentReader::open(files[i].1.as_slice()) {
                    Ok(rd) => rd,
                    Err(e) => {
                        proof {
                            assert(is_txn_name(fs[i as int].0));
                            assert(fs[i as int].1 == files@[i as int].1@);
                            lemma_txns_contains(fs, i as int);
                            assert(txns_of(fs).contains(fs[i as int]));
                            lemma_snapshot_contains(fs, with_main, fs[i as int]);
                            let w = choose|w: int|
                                0 <= w < snapshot_of(fs, with_main).len() && snapshot_of(
                                    fs,
                                    with_main,
                                )[w] == fs[i as int];
                            assert(seg_dec(snapshot_of(fs, with_main)[w].1) is None);
                        }
                        return Err(e);
                    },
                };
                let nm = crate::codec::subvec(files[i].0.as_slice(), 0, files[i].0.len());
                proof {
                    assert(nm@ =~= fs[i as int].0);
                    assert((built + seq![fs[i as int]]).map_values(|p: (Seq<u8>, Seq<u8>)| p.0)
                        =~= built.map_values(|p: (Seq<u8>, Seq<u8>)| p.0).push(fs[i as int].0));
                    assert(names@.push(nm).map_values(|v: Vec<u8>| v@) =~= names@.map_values(
                        |v: Vec<u8>| v@,
                    ).push(nm@));
                    assert(seqs_of(readers@.push(rd)) =~= seqs_of(readers@).push(rd@));
                    assert(built + (seq![fs[i as int]] + txns_of(fs.skip(i + 1))) =~= (built + seq![
                        fs[i as int],
                    ]) + txns_of(fs.skip(i + 1)));
                    built = built + seq![fs[i as int]];
                }
                names.push(nm);
                readers.push(rd);
            } else {
                proof {
                    assert(Seq::<(Seq<u8>, Seq<u8>)>::empty() + txns_of(fs.skip(i + 1)) =~= txns_of(
                        fs.skip(i + 1),
                    ));
                }
            }
            i += 1;
        }
        proof {
            assert(txns_of(fs.skip(n as int)).len() == 0);
            assert(built + txns_of(fs.skip(n as int)) =~= built);
            assert(built =~= snap);
        }
        Ok(DatabaseReader { names, readers })
    }

    /// The snapshot's file names, oldest first: what a compaction may
    /// unlink once its output is committed.
    pub fn transaction_paths(&self) -> (r: &Vec<Vec<u8>>)
        ensures
            r == &self.names,
    {
        &self.names
    }

    /// The merged stream of every record in the snapshot, in
    /// `(key, timestamp)` order, ties oldest segment first.
    pub fn get_all(&self) -> (r: Vec<Record>)
        ensures
            views_of(r@) == merge_of(self@),
    {
        merge(&self.readers)
    }

    /// The merged records whose keys lie in the range, in the same order.
    pub fn get_range(&self, lo: &KeyBound, hi: &KeyBound) -> (r: Vec<Record>)
        ensures
            views_of(r@) == range_filter(merge_of(self@), lo@, hi@),
    {
        let merged = merge(&self.readers);
        crate::range::filter_range(&merged, lo, hi)
    }

    /// The merged records of one key, in the same order.
    pub fn get(&self, key: &[u8]) -> (r: Vec<Record>)
        ensures
            views_of(r@) == key_filter(merge_of(self@), key@),
    {
        let merged = merge(&self.readers);
        crate::range::filter_key(&merged, key)
    }

    /// The format stored under `key`, where any record has it.
    pub fn get_format_of(&self, key: &[u8]) -> (r: Option<Vec<u8>>)
        ensures
            (match r {
                Some(f) => key_filter(merge_of(self@), key@).len() > 0 && f@ == key_filter(
                    merge_of(self@),
                    key@,
                )[0].fmt,
                None => key_filter(merge_of(self@), key@).len() == 0,
            }),
    {
        let hits = self.get(key);
        if hits.len() == 0 {
            None
        } else {
            proof {
                assert(views_of(hits@)[0] == hits@[0]@);
            }
            Some(crate::codec::subvec(hits[0].format.as_slice(), 0, hits[0].format.len()))
        }
    }
}

/// A `main` entry is in the snapshot.
proof fn lemma_mains_contains(fs: Seq<(Seq<u8>, Seq<u8>)>, i: int)
    requires
        0 <= i < fs.len(),
        fs[i].0 == main_name(),
    ensures
        mains_of(fs).contains(fs[i]),
    decreases fs.len(),
{
    if i == 0 {
        assert(mains_of(fs)[0] == fs[0]);
    } else {
        assert(fs.drop_first()[i - 1] == fs[i]);
        lemma_mains_contains(fs.drop_first(), i - 1);
        let w = choose|w: int|
            0 <= w < mains_of(fs.drop_first()).len() && mains_of(fs.drop_first())[w] == fs.drop_first()[i - 1];
        if fs[0].0 == main_name() {
            assert(mains_of(fs)[w + 1] == fs[i]);
        } else {
            assert(mains_of(fs)[w] == fs[i]);
        }
    }
}

/// A `tx.*` entry is in the snapshot.
proof fn lemma_txns_contains(fs: Seq<(Seq<u8>, Seq<u8>)>, i: int)
    requires
        0 <= i < fs.len(),
        is_txn_name(fs[i].0),
    ensures
        txns_of(fs).contains(fs[i]),
    decreases fs.len(),
{
    if i == 0 {
        assert(txns_of(fs)[0] == fs[0]);
    } else {
        assert(fs.drop_first()[i - 1] == fs[i]);
        lemma_txns_contains(fs.drop_first(), i - 1);
        let w = choose|w: int|
            0 <= w < txns_of(fs.drop_first()).len() && txns_of(fs.drop_first())[w] == fs.drop_first()[i - 1];
        if is_txn_name(fs[0].0) {
            assert(txns_of(fs)[w + 1] == fs[i]);
        } else {
            assert(txns_of(fs)[w] == fs[i]);
        }
    }
}

/// What either part of the snapshot holds, the snapshot holds.
proof fn lemma_snapshot_contains(fs: Seq<(Seq<u8>, Seq<u8>)>, with_main: bool, p: (Seq<u8>, Seq<u8>))
    requires
        (with_main && mains_of(fs).contains(p)) || txns_of(fs).contains(p),
    ensures
        snapshot_of(fs, with_main).contains(p),
{
    let snap = snapshot_of(fs, with_main);
    if with_main && mains_of(fs).contains(p) {
        let w = choose|w: int| 0 <= w < mains_of(fs).len() && mains_of(fs)[w] == p;
        assert(snap[w] == p);
    } else {
        let w = choose|w: int| 0 <= w < txns_of(fs).len() && txns_of(fs)[w] == p;
        if with_main {
            assert(snap[mains_of(fs).len() + w] == p);
        } else {
            assert(snap[w] == p);
        }
    }
}

/// Builds one transaction: a writer whose image the caller publishes
/// under a fresh monotonic name.
pub struct CreateTx {
    /// The segment being written.
    pub writer: Writer,
}

/// Why a checked append must be rejected: a changed format against the
/// database first, then everything [`add_check`] rejects.
pub open spec fn add_check_db(db: Seq<Seq<Rec>>, prior: Seq<Rec>, r: Rec) -> Option<Error> {
    if key_filter(merge_of(db), r.key).len() > 0 && key_filter(merge_of(db), r.key)[0].fmt != r.fmt {
        Some(Error::FormatMismatch)
    } else {
        add_check(prior, r)
    }
}

impl CreateTx {
    /// Every record this transaction holds so far, in order.
    pub open spec fn records(self) -> Seq<Rec> {
        self.writer.records()
    }

    pub open spec fn wf(self) -> bool {
        self.writer.wf()
    }

    /// A fresh, empty transaction.
    pub fn new() -> (tx: CreateTx)
        ensures
            tx.wf(),
            tx.records() == Seq::<Rec>::empty(),
    {
        CreateTx { writer: Writer::new() }
    }

    /// Take one record without consulting the database: the unchecked
    /// path.  The timestamp is the value's first eight bytes, big-endian.
    pub fn add_record(&mut self, key: &[u8], fmt: &[u8], value: &[u8]) -> (r: Result<(), Error>)
        requires
            old(self).wf(),
            value@.len() <= 0x40000000,
        ensures
            final(self).wf(),
            (match r {
                Ok(()) => add_check(old(self).records(), rec_of_input(key@, fmt@, value@)) is None
                    && final(self).records() == old(self).records().push(
                    rec_of_input(key@, fmt@, value@),
                ),
                Err(e) => Some(e) == add_check(old(self).records(), rec_of_input(key@, fmt@, value@))
                    && final(self).records() == old(self).records(),
            }),
    {
        self.writer.add_record(key, fmt, value)
    }

    /// Take one record, first holding its format against what the
    /// database already stores under its key.
    pub fn add_record_checked(
        &mut self,
        db: &DatabaseReader,
        key: &[u8],
        fmt: &[u8],
        value: &[u8],
    ) -> (r: Result<(), Error>)
        requires
            old(self).wf(),
            value@.len() <= 0x40000000,
        ensures
            final(self).wf(),
            (match r {
                Ok(()) => add_check_db(db@, old(self).records(), rec_of_input(key@, fmt@, value@))
                    is None && final(self).records() == old(self).records().push(
                    rec_of_input(key@, fmt@, value@),
                ),
                Err(e) => Some(e) == add_check_db(
                    db@,
                    old(self).records(),
                    rec_of_input(key@, fmt@, value@),
                ) && final(self).records() == old(self).records(),
            }),
    {
        match db.get_format_of(key) {
            Some(f) => {
                if crate::order::bytes_cmp(f.as_slice(), fmt) != 1 {
                    return Err(Error::FormatMismatch);
                }
            },
            None => {},
        }
        self.writer.add_record(key, fmt, value)
    }

    /// Close the transaction: the segment image to publish by an atomic
    /// rename.  It decodes to exactly the records taken, strictly
    /// ordered.
    pub fn commit(self) -> (out: Vec<u8>)
        requires
            self.wf(),
        ensures
            seg_dec(out@) == Some(self.records()),
            crate::record::well_ordered(self.records()),
    {
        self.writer.finish()
    }
}

/// Can the merged stream be written back as one segment: strictly
/// ordered, every value carrying its timestamp and of writable size.
pub open spec fn addable(s: Seq<Rec>) -> bool {
    &&& crate::record::well_ordered(s)
    &&& forall|i: int|
        0 <= i < s.len() ==> 8 <= (#[trigger] s[i]).value.len() <= 0x40000000 && s[i].ts == (
        be64_dec(s[i].value, 0) as u64)
    &&& forall|i: int|
        0 <= i < s.len() - 1 && (#[trigger] s[i]).key == s[i + 1].key ==> s[i].fmt == s[i + 1].fmt
}

/// Fuse a snapshot into one fresh segment image: the byte-level
/// compaction.  Succeeds exactly where the merged stream can stand in one
/// segment; two transactions that both hold some `(key, timestamp)` make
/// it report the duplicate instead.
pub fn compact(db: &DatabaseReader) -> (r: Result<Vec<u8>, Error>)
    ensures
        (match r {
            Ok(out) => seg_dec(out@) == Some(merge_of(db@)) && addable(merge_of(db@)),
            Err(e) => !addable(merge_of(db@)) && e != Error::CorruptSegment,
        }),
{
    let merged = db.get_all();
    let ghost ms = merge_of(db@);
    let mut w = Writer::new();
    let n: usize = merged.len();
    let mut i: usize = 0;
    while i < n
        invariant
            i <= n,
            n == merged@.len(),
            views_of(merged@) == ms,
            ms == merge_of(db@),
            w.wf(),
            w.records() == ms.subrange(0, i as int),
            forall|j: int|
                0 <= j < i ==> 8 <= (#[trigger] ms[j]).value.len() <= 0x40000000 && ms[j].ts == (
                be64_dec(ms[j].value, 0) as u64),
            forall|j: int|
                0 <= j < i - 1 && (#[trigger] ms[j]).key == ms[j + 1].key ==> ms[j].fmt == ms[j
                    + 1].fmt,
        decreases n - i,
    {
        let rec = &merged[i];
        proof {
            assert(views_of(merged@)[i as int] == merged@[i as int]@);
            assert(ms[i as int] == rec@);
        }
        if rec.value.len() < 8 || rec.value.len() > 0x40000000 {
            proof {
                lemma_not_addable(ms, i as int);
            }
            return Err(Error::ParseError);
        }
        let ts = read_u64_be(rec.value.as_slice(), 0);
        if ts != rec.timestamp {
            proof {
                lemma_not_addable(ms, i as int);
            }
            return Err(Error::ParseError);
        }
        let res = w.add_record(rec.key.as_slice(), rec.format.as_slice(), rec.value.as_slice());
        match res {
            Ok(()) => {
                proof {
                    assert(rec_of_input(ms[i as int].key, ms[i as int].fmt, ms[i as int].value)
                        == ms[i as int]);
                    assert(ms.subrange(0, i as int).push(ms[i as int]) =~= ms.subrange(0, i + 1));
                    if i > 0 {
                        assert(ms.subrange(0, i as int).last() == ms[i - 1]);
                        assert(ms[i - 1].key == ms[i as int].key ==> ms[i - 1].fmt
                            == ms[i as int].fmt);
                    }
                }
            },
            Err(e) => {
                proof {
                    lemma_add_check_rejects(ms, i as int, e);
                }
                return Err(e);
            },
        }
        i += 1;
    }
    proof {
        assert(ms.subrange(0, n as int) =~= ms);
        assert(crate::record::well_ordered(ms));
        assert(addable(ms));
    }
    Ok(w.finish())
}

/// A record failing the size or timestamp test breaks `addable`.
proof fn lemma_not_addable(s: Seq<Rec>, i: int)
    requires
        0 <= i < s.len(),
        !(8 <= s[i].value.len() <= 0x40000000 && s[i].ts == (be64_dec(s[i].value, 0) as u64)),
    ensures
        !addable(s),
{
}

/// A record the writer rejects against the prefix before it breaks
/// `addable`, and the error is never `CorruptSegment`.
proof fn lemma_add_check_rejects(s: Seq<Rec>, i: int, e: Error)
    requires
        0 <= i < s.len(),
        8 <= s[i].value.len(),
        Some(e) == add_check(s.subrange(0, i), s[i]),
    ensures
        !addable(s),
        e != Error::CorruptSegment,
{
    let prior = s.subrange(0, i);
    if prior.len() == 0 {
    } else {
        assert(prior.last() == s[i - 1]);
        if addable(s) {
            assert(crate::record::rec_lt(s[i - 1], s[i]));
            assert(s[i - 1].key == s[i].key ==> s[i - 1].fmt == s[i].fmt);
            crate::order::lemma_lex_lt_asym(s[i].key, s[i - 1].key);
            crate::order::lemma_lex_lt_irrefl(s[i].key);
        }
    }
}

} // verus!
