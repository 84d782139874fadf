//! Writing and reading one segment.
//!
//! [`Writer`] accepts records in strict `(key, timestamp)` order, packs a
//! run of one key into a block (cut at sixty-four KiB of payload), and on
//! [`Writer::finish`] emits the blocks, a compressed index of
//! `(first-key, offset)` entries, and the trailer.  Its contract is the
//! round trip itself: the image it returns decodes to exactly the records
//! it accepted, and those are strictly ordered.
//!
//! [`SegmentReader`] opens an image by decoding it in full and serves key
//! and range queries from the decoded records.

use vstd::prelude::*;

use crate::codec::append_slice;
use crate::codec::block_dec;
use crate::codec::blocks_dec;
use crate::codec::decode_block;
use crate::codec::lemma_blocks_append;
use crate::codec::lemma_blocks_snoc;
use crate::codec::lemma_payload_extend;
use crate::codec::magic;
use crate::codec::payload_dec;
use crate::codec::seg_dec;
use crate::codec::subvec;
use crate::compress::compress;
use crate::order::lex_lt;
use crate::range::filter_key;
use crate::range::filter_range;
use crate::range::key_filter;
use crate::range::range_filter;
use crate::range::KeyBound;
use crate::record::lemma_views_push;
use crate::record::lemma_well_ordered_push;
use crate::record::rec_lt;
use crate::record::views_of;
use crate::record::well_ordered;
use crate::record::Rec;
use crate::record::Record;
use crate::wire::be64_dec;
use crate::wire::le64_enc;
use crate::wire::lemma_le64_roundtrip;
use crate::wire::lemma_u64_under_pow128_10;
use crate::wire::lemma_vdec64_venc;
use crate::wire::lemma_venc_len;
use crate::wire::pow128;
use crate::wire::read_u64_be;
use crate::wire::read_u64_le;
use crate::wire::venc;
use crate::wire::write_u64_le;
use crate::wire::write_varint;
use crate::Error;

verus! {

/// The record a caller's three arguments stand for: the timestamp is the
/// value's first eight bytes, big-endian.
pub open spec fn rec_of_input(key: Seq<u8>, fmt: Seq<u8>, value: Seq<u8>) -> Rec {
    Rec { key, ts: (be64_dec(value, 0) as u64), fmt, value }
}

/// Why [`Writer::add_record`] rejects its input, or `None` where it must
/// accept: a value too short for its timestamp; a key before the last
/// record's; on the last record's own key, a changed format, then a
/// timestamp running backwards, then a repeated timestamp.
pub open spec fn add_check(prior: Seq<Rec>, r: Rec) -> Option<Error> {
    if r.value.len() < 8 {
        Some(Error::ParseError)
    } else if prior.len() == 0 {
        None
    } else if lex_lt(r.key, prior.last().key) {
        Some(Error::OutOfOrder)
    } else if r.key == prior.last().key {
        if r.fmt != prior.last().fmt {
            Some(Error::FormatMismatch)
        } else if r.ts < prior.last().ts {
            Some(Error::OutOfOrder)
        } else if r.ts == prior.last().ts {
            Some(Error::DuplicateTimestamp)
        } else {
            None
        }
    } else {
        None
    }
}

/// Builds one segment image in memory.
pub struct Writer {
    /// Encoded, already-cut blocks.
    pub done: Vec<u8>,
    /// Index entries of the cut blocks: key length, key, offset.
    pub index: Vec<u8>,
    /// Key shared by the records of the open block.
    pub cur_key: Vec<u8>,
    /// Format shared by the records of the open block.
    pub cur_fmt: Vec<u8>,
    /// Uncompressed payload of the open block.
    pub cur_payload: Vec<u8>,
    /// Records in the open block.
    pub cur_count: u64,
    /// Timestamp of the last record taken.
    pub cur_last_ts: u64,
    /// Records taken overall, saturating; informational, for the trailer.
    pub total: u64,
    /// The records already cut into blocks.
    pub flushed: Ghost<Seq<Rec>>,
    /// The records of the open block.
    pub cur: Ghost<Seq<Rec>>,
}

impl Writer {
    /// Every record this writer has accepted, in order.
    pub open spec fn records(self) -> Seq<Rec> {
        self.flushed@ + self.cur@
    }

    /// The writer's internal consistency: its buffers decode back to the
    /// records it accepted, which are strictly ordered.
    pub open spec fn inv(self) -> bool {
        &&& blocks_dec(self.done@, 0, self.done@.len() as int) == Some(self.flushed@)
        &&& payload_dec(
            self.cur_payload@,
            0,
            self.cur@.len() as nat,
            None,
            self.cur_key@,
            self.cur_fmt@,
        ) == Some((self.cur@, self.cur_payload@.len() as int))
        &&& self.cur_count as int == self.cur@.len()
        &&& (self.cur@.len() > 0 ==> self.cur@.last().ts == self.cur_last_ts
            && self.cur@.last().key == self.cur_key@ && self.cur@.last().fmt == self.cur_fmt@)
        &&& (self.cur@.len() == 0 ==> self.cur_payload@.len() == 0)
        &&& well_ordered(self.flushed@ + self.cur@)
        &&& self.cur_payload@.len() <= 0x40010100
        &&& self.cur_count as int <= self.cur_payload@.len()
    }

    pub open spec fn wf(self) -> bool {
        &&& self.inv()
        &&& (self.flushed@.len() > 0 ==> self.cur@.len() > 0)
    }

    /// A fresh writer holding nothing.
    pub fn new() -> (w: Writer)
        ensures
            w.wf(),
            w.records() == Seq::<Rec>::empty(),
    {
        let w = Writer {
            done: Vec::new(),
            index: Vec::new(),
            cur_key: Vec::new(),
            cur_fmt: Vec::new(),
            cur_payload: Vec::new(),
            cur_count: 0,
            cur_last_ts: 0,
            total: 0,
            flushed: Ghost(Seq::empty()),
            cur: Ghost(Seq::empty()),
        };
        proof {
            assert(w.records() =~= Seq::<Rec>::empty());
        }
        w
    }

    /// Cut the open block: encode it onto `done` and note it in the index.
    fn flush_block(&mut self)
        requires
            old(self).inv(),
            old(self).cur@.len() > 0,
        ensures
            final(self).inv(),
            final(self).cur@.len() == 0,
            final(self).cur_payload@.len() == 0,
            final(self).flushed@ == old(self).flushed@ + old(self).cur@,
            final(self).records() == old(self).records(),
            final(self).total == old(self).total,
    {
        let off: usize = self.done.len();
        let ghost l1 = self.done@.len() as int;
        let ghost base = self.done@;
        let klen: usize = self.cur_key.len();
        let flen: usize = self.cur_fmt.len();
        let comp = compress(self.cur_payload.as_slice());
        write_varint(&mut self.done, klen as u64);
        append_slice(&mut self.done, self.cur_key.as_slice());
        write_varint(&mut self.done, flen as u64);
        append_slice(&mut self.done, self.cur_fmt.as_slice());
        write_varint(&mut self.done, self.cur_count);
        write_varint(&mut self.done, comp.len() as u64);
        append_slice(&mut self.done, comp.as_slice());
        proof {
            let d2 = self.done@;
            let e1 = venc(klen as int);
            let e2 = venc(flen as int);
            let e3 = venc(self.cur_count as int);
            let e4 = venc(comp@.len() as int);
            assert(d2 =~= base + e1 + self.cur_key@ + e2 + self.cur_fmt@ + e3 + e4 + comp@);
            let p1 = l1 + e1.len() as int;
            assert(d2.subrange(l1, p1 as int) =~= e1);
            lemma_vdec64_venc(d2, l1, klen as u64);
            assert(d2.subrange(p1 as int, p1 + klen) =~= self.cur_key@);
            let pk = p1 + klen;
            assert(d2.subrange(pk as int, pk + e2.len() as int) =~= e2);
            lemma_vdec64_venc(d2, pk as int, flen as u64);
            let p2 = pk + e2.len() as int;
            assert(d2.subrange(p2 as int, p2 + flen) =~= self.cur_fmt@);
            let pf = p2 + flen;
            assert(d2.subrange(pf as int, pf + e3.len() as int) =~= e3);
            lemma_vdec64_venc(d2, pf as int, self.cur_count);
            let p3 = pf + e3.len() as int;
            assert(d2.subrange(p3 as int, p3 + e4.len() as int) =~= e4);
            lemma_vdec64_venc(d2, p3 as int, comp@.len() as u64);
            let p4 = p3 + e4.len() as int;
            assert(d2.subrange(p4 as int, p4 + comp@.len() as int) =~= comp@);
            assert(p4 + comp@.len() as int == d2.len());
            assert(block_dec(d2, l1) == Some((self.cur@, d2.len() as int)));
            lemma_blocks_append(
                base,
                d2.subrange(l1, d2.len() as int),
                0,
                l1,
            );
            assert(base + d2.subrange(l1, d2.len() as int) =~= d2);
            lemma_blocks_snoc(d2, 0, l1, d2.len() as int);
        }
        write_varint(&mut self.index, klen as u64);
        append_slice(&mut self.index, self.cur_key.as_slice());
        write_varint(&mut self.index, off as u64);
        self.cur_payload = Vec::new();
        self.cur_count = 0;
        proof {
            self.flushed@ = self.flushed@ + self.cur@;
            self.cur@ = Seq::empty();
            assert(self.flushed@ + self.cur@ =~= self.flushed@);
            assert(self.records() =~= old(self).records());
        }
    }

    /// Open a new block holding exactly the given record.
    fn start_block(&mut self, key: &[u8], fmt: &[u8], value: &[u8], ts: u64)
        requires
            old(self).inv(),
            old(self).cur@.len() == 0,
            8 <= value@.len() <= 0x40000000,
            ts == (be64_dec(value@, 0) as u64),
            old(self).flushed@.len() > 0 ==> rec_lt(
                old(self).flushed@.last(),
                rec_of_input(key@, fmt@, value@),
            ),
        ensures
            final(self).wf(),
            final(self).records() == old(self).records().push(rec_of_input(key@, fmt@, value@)),
    {
        let ghost rec = rec_of_input(key@, fmt@, value@);
        self.cur_key = subvec(key, 0, key.len());
        self.cur_fmt = subvec(fmt, 0, fmt.len());
        let vlen: usize = value.len();
        let mut pl: Vec<u8> = Vec::new();
        write_u64_le(&mut pl, ts);
        write_varint(&mut pl, vlen as u64);
        append_slice(&mut pl, value);
        proof {
            assert(key@.subrange(0, key@.len() as int) =~= key@);
            assert(fmt@.subrange(0, fmt@.len() as int) =~= fmt@);
            let plv = pl@;
            let ev = venc(vlen as int);
            assert(plv =~= le64_enc(ts) + ev + value@);
            assert(plv.subrange(0, 8) =~= le64_enc(ts));
            lemma_le64_roundtrip(plv, 0, ts);
            assert(plv.subrange(8, 8 + ev.len() as int) =~= ev);
            lemma_vdec64_venc(plv, 8, vlen as u64);
            let q = 8 + ev.len() as int;
            assert(plv.subrange(q as int, q + vlen) =~= value@);
            assert(q + vlen == plv.len());
            assert(payload_dec(plv, q + vlen, 0, Some(ts), key@, fmt@) == Some(
                (Seq::<Rec>::empty(), plv.len() as int),
            ));
            assert(seq![rec] + Seq::<Rec>::empty() =~= seq![rec]);
            assert(payload_dec(plv, 0, 1, None, key@, fmt@) == Some((seq![rec], plv.len() as int)));
            lemma_u64_under_pow128_10();
            lemma_venc_len(vlen as int, 10, pow128(10));
        }
        self.cur_payload = pl;
        self.cur_count = 1;
        self.cur_last_ts = ts;
        if self.total < u64::MAX {
            self.total = self.total + 1;
        }
        proof {
            self.cur@ = seq![rec];
            assert(old(self).flushed@ + Seq::<Rec>::empty() =~= old(self).flushed@);
            lemma_well_ordered_push(old(self).flushed@, rec);
            assert(old(self).flushed@.push(rec) =~= self.flushed@ + self.cur@);
            assert(old(self).records().push(rec) =~= self.records());
        }
    }

    /// Append one more record of the open block's key to its payload.
    fn extend_block(&mut self, value: &[u8], ts: u64)
        requires
            old(self).inv(),
            old(self).cur@.len() > 0,
            8 <= value@.len() <= 0x40000000,
            ts == (be64_dec(value@, 0) as u64),
            ts > old(self).cur_last_ts,
            old(self).cur_payload@.len() < 65536,
        ensures
            final(self).wf(),
            final(self).records() == old(self).records().push(
                rec_of_input(old(self).cur_key@, old(self).cur_fmt@, value@),
            ),
    {
        let ghost rec = rec_of_input(self.cur_key@, self.cur_fmt@, value@);
        let delta: u64 = ts - self.cur_last_ts;
        let vlen: usize = value.len();
        let ghost pl0 = self.cur_payload@;
        let ghost l0 = pl0.len() as int;
        write_varint(&mut self.cur_payload, delta);
        write_varint(&mut self.cur_payload, vlen as u64);
        append_slice(&mut self.cur_payload, value);
        proof {
            let pl2 = self.cur_payload@;
            let ed = venc(delta as int);
            let ev = venc(vlen as int);
            assert(pl2 =~= pl0 + ed + ev + value@);
            assert(pl2.subrange(0, l0) =~= pl0);
            assert(pl2.subrange(l0, l0 + ed.len() as int) =~= ed);
            lemma_vdec64_venc(pl2, l0, delta);
            let td = l0 + ed.len() as int;
            assert(pl2.subrange(td as int, td + ev.len() as int) =~= ev);
            lemma_vdec64_venc(pl2, td as int, vlen as u64);
            let q = td + ev.len() as int;
            assert(pl2.subrange(q as int, q + vlen) =~= value@);
            assert(q + vlen == pl2.len());
            assert(payload_dec(pl2, q + vlen, 0, Some(ts), self.cur_key@, self.cur_fmt@) == Some(
                (Seq::<Rec>::empty(), pl2.len() as int),
            ));
            assert(seq![rec] + Seq::<Rec>::empty() =~= seq![rec]);
            assert(self.cur_last_ts + delta == ts);
            assert(payload_dec(pl2, l0, 1, Some(self.cur_last_ts), self.cur_key@, self.cur_fmt@)
                == Some((seq![rec], pl2.len() as int)));
            lemma_payload_extend(
                pl0,
                pl2,
                0,
                self.cur@.len() as nat,
                None,
                self.cur_key@,
                self.cur_fmt@,
                self.cur@,
                rec,
            );
            lemma_u64_under_pow128_10();
            lemma_venc_len(delta as int, 10, pow128(10));
            lemma_venc_len(vlen as int, 10, pow128(10));
        }
        self.cur_count = self.cur_count + 1;
        self.cur_last_ts = ts;
        if self.total < u64::MAX {
            self.total = self.total + 1;
        }
        proof {
            let prior = self.cur@;
            self.cur@ = self.cur@.push(rec);
            assert(prior + seq![rec] =~= self.cur@);
            lemma_well_ordered_push(self.flushed@ + prior, rec);
            assert((self.flushed@ + prior).push(rec) =~= self.flushed@ + self.cur@);
            assert(old(self).records().push(rec) =~= self.records());
        }
    }

    /// Take one record.  The timestamp is the value's first eight bytes,
    /// big-endian.  Exactly the inputs [`add_check`] clears are taken, in
    /// strictly rising `(key, timestamp)` order; everything else comes
    /// back as the error [`add_check`] names, leaving the writer as it
    /// was.
    pub fn add_record(&mut self, key: &[u8], fmt: &[u8], value: &[u8]) -> (r: Result<(), Error>)
        requires
            old(self).wf(),
            value@.len() <= 0x40000000,
        ensures
            final(self).wf(),
            (match r {
                Ok(()) => add_check(old(self).records(), rec_of_input(key@, fmt@, value@)) is None
                    && final(self).records() == old(self).records().push(
                    rec_of_input(key@, fmt@, value@),
                ),
                Err(e) => Some(e) == add_check(old(self).records(), rec_of_input(key@, fmt@, value@))
                    && *final(self) == *old(self),
            }),
    {
        if value.len() < 8 {
            return Err(Error::ParseError);
        }
        let ts = read_u64_be(value, 0);
        let ghost rec = rec_of_input(key@, fmt@, value@);
        if self.cur_count == 0 {
            proof {
                assert(self.records() =~= Seq::<Rec>::empty());
            }
            self.start_block(key, fmt, value, ts);
            return Ok(());
        }
        proof {
            assert(self.records().last() == self.cur@.last());
        }
        let c = crate::order::bytes_cmp(key, self.cur_key.as_slice());
        if c == 0 {
            return Err(Error::OutOfOrder);
        }
        if c == 1 {
            if crate::order::bytes_cmp(fmt, self.cur_fmt.as_slice()) != 1 {
                return Err(Error::FormatMismatch);
            }
            if ts < self.cur_last_ts {
                return Err(Error::OutOfOrder);
            }
            if ts == self.cur_last_ts {
                return Err(Error::DuplicateTimestamp);
            }
            if self.cur_payload.len() >= 65536 {
                self.flush_block();
                proof {
                    assert(self.flushed@.last() == old(self).records().last());
                }
                self.start_block(key, fmt, value, ts);
            } else {
                self.extend_block(value, ts);
            }
            return Ok(());
        }
        proof {
            crate::order::lemma_lex_total(key@, self.cur_key@);
            assert(lex_lt(self.cur_key@, key@));
        }
        self.flush_block();
        proof {
            assert(self.flushed@.last() == old(self).records().last());
        }
        self.start_block(key, fmt, value, ts);
        Ok(())
    }

    /// Cut the last block, append the compressed index and the trailer,
    /// and hand the finished image back.  It decodes to exactly the
    /// records taken, which are strictly ordered.
    pub fn finish(self) -> (out: Vec<u8>)
        requires
            self.wf(),
        ensures
            seg_dec(out@) == Some(self.records()),
            well_ordered(self.records()),
    {
        let mut w = self;
        if w.cur_count > 0 {
            w.flush_block();
        }
        proof {
            assert(w.flushed@ == self.records());
        }
        if w.done.len() == 0 {
            let out: Vec<u8> = Vec::new();
            proof {
                assert(self.records() =~= Seq::<Rec>::empty());
            }
            return out;
        }
        seal(w.done, &w.index, w.total, Ghost(self.records()))
    }
}

/// Append the compressed index and the trailer behind the finished blocks.
#[verifier::rlimit(100)]
fn seal(done: Vec<u8>, index: &Vec<u8>, total: u64, Ghost(recs): Ghost<Seq<Rec>>) -> (out: Vec<u8>)
    requires
        blocks_dec(done@, 0, done@.len() as int) == Some(recs),
        done@.len() > 0,
    ensures
        seg_dec(out@) == Some(recs),
{
    let ioff: usize = done.len();
    let comp = compress(index.as_slice());
    let isz: usize = comp.len();
    let mut out: Vec<u8> = Vec::new();
    append_slice(&mut out, done.as_slice());
    append_slice(&mut out, comp.as_slice());
    let mut tr: Vec<u8> = Vec::new();
    tr.push(0x73u8);
    tr.push(0x6fu8);
    tr.push(0x6eu8);
    tr.push(0x6eu8);
    tr.push(0x2du8);
    tr.push(0x73u8);
    tr.push(0x65u8);
    tr.push(0x67u8);
    tr.push(1u8);
    write_u64_le(&mut tr, ioff as u64);
    write_u64_le(&mut tr, isz as u64);
    write_u64_le(&mut tr, total);
    proof {
        assert(tr@ =~= magic() + seq![1u8] + le64_enc(ioff as u64) + le64_enc(isz as u64)
            + le64_enc(total));
    }
    append_slice(&mut out, tr.as_slice());
    proof {
        let b = out@;
        let t = b.len() - 33;
        assert(t == ioff + isz);
        assert(b.subrange(t, t + 8) =~= magic());
        assert(b[t + 8] == 1u8);
        assert(b.subrange(t + 9, t + 17) =~= le64_enc(ioff as u64));
        lemma_le64_roundtrip(b, t + 9, ioff as u64);
        assert(b.subrange(t + 17, t + 25) =~= le64_enc(isz as u64));
        lemma_le64_roundtrip(b, t + 17, isz as u64);
        lemma_blocks_append(done@, b.subrange(ioff as int, b.len() as int), 0, ioff as int);
        assert(done@ + b.subrange(ioff as int, b.len() as int) =~= b);
    }
    out
}

/// Decode a whole segment image: exactly [`seg_dec`].
pub fn decode_segment(b: &[u8]) -> (r: Result<Vec<Record>, Error>)
    ensures
        (match r {
            Ok(v) => seg_dec(b@) == Some(views_of(v@)),
            Err(e) => e == Error::CorruptSegment && seg_dec(b@) is None,
        }),
{
    let len: usize = b.len();
    if len == 0 {
        let out: Vec<Record> = Vec::new();
        proof {
            assert(views_of(out@) =~= Seq::<Rec>::empty());
        }
        return Ok(out);
    }
    if len < 33 {
        return Err(Error::CorruptSegment);
    }
    let t: usize = len - 33;
    let m_ok = b[t] == 0x73u8 && b[t + 1] == 0x6fu8 && b[t + 2] == 0x6eu8 && b[t + 3] == 0x6eu8
        && b[t + 4] == 0x2du8 && b[t + 5] == 0x73u8 && b[t + 6] == 0x65u8 && b[t + 7] == 0x67u8;
    proof {
        if m_ok {
            assert(b@.subrange(t as int, t + 8) =~= magic()) by {
                assert forall|j: int| 0 <= j < 8 implies #[trigger] b@.subrange(t as int, t + 8)[j]
                    == magic()[j] by {
                    assert(b@.subrange(t as int, t + 8)[j] == b@[t + j]);
                }
            }
        } else {
            assert(b@.subrange(t as int, t + 8) != magic()) by {
                if b@.subrange(t as int, t + 8) == magic() {
                    assert(b@[t as int] == b@.subrange(t as int, t + 8)[0]);
                    assert(b@[t + 1] == b@.subrange(t as int, t + 8)[1]);
                    assert(b@[t + 2] == b@.subrange(t as int, t + 8)[2]);
                    assert(b@[t + 3] == b@.subrange(t as int, t + 8)[3]);
                    assert(b@[t + 4] == b@.subrange(t as int, t + 8)[4]);
                    assert(b@[t + 5] == b@.subrange(t as int, t + 8)[5]);
                    assert(b@[t + 6] == b@.subrange(t as int, t + 8)[6]);
                    assert(b@[t + 7] == b@.subrange(t as int, t + 8)[7]);
                }
            }
        }
    }
    if !m_ok {
        return Err(Error::CorruptSegment);
    }
    if b[t + 8] != 1u8 {
        return Err(Error::CorruptSegment);
    }
    let ioff = read_u64_le(b, t + 9);
    let isz = read_u64_le(b, t + 17);
    if ioff > t as u64 || isz != t as u64 - ioff {
        return Err(Error::CorruptSegment);
    }
    let iu: usize = ioff as usize;
    let mut out: Vec<Record> = Vec::new();
    let mut pos: usize = 0;
    proof {
        assert(views_of(out@) =~= Seq::<Rec>::empty());
        assert(seg_dec(b@) == blocks_dec(b@, 0, iu as int));
    }
    while pos < iu
        invariant
            pos <= iu,
            iu <= b@.len() - 33,
            iu == ioff,
            b@.len() == len,
            seg_dec(b@) == blocks_dec(b@, 0, iu as int),
            (match blocks_dec(b@, pos as int, iu as int) {
                None => blocks_dec(b@, 0, iu as int) is None,
                Some(tl) => blocks_dec(b@, 0, iu as int) == Some(views_of(out@) + tl),
            }),
        decreases iu - pos,
    {
        match decode_block(b, pos) {
            None => {
                proof {
                    assert(blocks_dec(b@, pos as int, iu as int) is None);
                }
                return Err(Error::CorruptSegment);
            },
            Some((v, e)) => {
                if e > iu {
                    proof {
                        assert(blocks_dec(b@, pos as int, iu as int) is None);
                    }
                    return Err(Error::CorruptSegment);
                }
                proof {
                    let tl = blocks_dec(b@, pos as int, iu as int);
                    let rest = blocks_dec(b@, e as int, iu as int);
                    if rest is Some {
                        crate::record::lemma_views_concat(out@, v@);
                        assert(views_of(out@) + (views_of(v@) + rest->Some_0) =~= (views_of(out@)
                            + views_of(v@)) + rest->Some_0);
                    }
                }
                push_all(&mut out, &v);
                pos = e;
            },
        }
    }
    proof {
        assert(blocks_dec(b@, iu as int, iu as int) == Some(Seq::<Rec>::empty()));
        assert(views_of(out@) + Seq::<Rec>::empty() =~= views_of(out@));
    }
    Ok(out)
}

/// Append copies of all records in `v`.
pub fn push_all(out: &mut Vec<Record>, v: &Vec<Record>)
    ensures
        views_of(final(out)@) == views_of(old(out)@) + views_of(v@),
{
    let n: usize = v.len();
    let mut i: usize = 0;
    proof {
        assert(views_of(out@) =~= views_of(old(out)@) + views_of(v@).subrange(0, 0));
    }
    while i < n
        invariant
            i <= n,
            n == v@.len(),
            views_of(out@) == views_of(old(out)@) + views_of(v@).subrange(0, i as int),
        decreases n - i,
    {
        let rec = v[i].duplicate();
        proof {
            lemma_views_push(out@, rec);
            assert((views_of(old(out)@) + views_of(v@).subrange(0, i as int)).push(rec@)
                =~= views_of(old(out)@) + views_of(v@).subrange(0, i + 1));
        }
        out.push(rec);
        i += 1;
    }
    proof {
        assert(views_of(v@).subrange(0, n as int) =~= views_of(v@));
    }
}

/// Serves queries over one decoded segment image.
#[derive(Debug)]
pub struct SegmentReader {
    /// The segment's records, in stored order.
    pub records: Vec<Record>,
}

impl View for SegmentReader {
    type V = Seq<Rec>;

    open spec fn view(&self) -> Seq<Rec> {
        views_of(self.records@)
    }
}

impl SegmentReader {
    /// Open a segment image: decode it in full, or report it corrupt.
    pub fn open(image: &[u8]) -> (r: Result<SegmentReader, Error>)
        ensures
            (match r {
                Ok(rd) => seg_dec(image@) == Some(rd@),
                Err(e) => e == Error::CorruptSegment && seg_dec(image@) is None,
            }),
    {
        match decode_segment(image) {
            Ok(v) => Ok(SegmentReader { records: v }),
            Err(e) => Err(e),
        }
    }

    /// All records, in stored order.
    pub fn records(&self) -> (r: &Vec<Record>)
        ensures
            views_of(r@) == self@,
    {
        &self.records
    }

    /// The records of one key, in stored order.
    pub fn get(&self, key: &[u8]) -> (r: Vec<Record>)
        ensures
            views_of(r@) == key_filter(self@, key@),
    {
        filter_key(&self.records, key)
    }

    /// The records whose keys lie in the range, in stored order.
    pub fn get_range(&self, lo: &KeyBound, hi: &KeyBound) -> (r: Vec<Record>)
        ensures
            views_of(r@) == range_filter(self@, lo@, hi@),
    {
        filter_range(&self.records, lo, hi)
    }
}

} // verus!
