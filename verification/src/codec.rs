//! The segment format and its decoder.
//!
//! A segment image is `[block]* [compressed index] [trailer]`.  A block is
//! `key-len | key | format-len | format | count | payload-len | payload`,
//! all lengths varints, the payload LZ4-compressed.  Inside the payload
//! the first record's timestamp stands absolute in eight little-endian
//! bytes; every later record carries a varint delta from its predecessor;
//! each record's value follows its own varint length.  The trailer is
//! `magic(8) | version(1) | index-offset(8) | index-size(8) |
//! record-count(8)`, the three numbers little-endian.
//!
//! [`seg_dec`] is the one meaning of an image: every reader returns
//! exactly what it says, and the writer proves that the bytes it emits
//! decode to exactly the records it accepted.

use vstd::prelude::*;

use crate::compress::decompress;
use crate::compress::decompress_of;
use crate::record::views_of;
use crate::record::Rec;
use crate::record::Record;
use crate::record::lemma_views_push;
use crate::wire::le64_dec;
use crate::wire::read_u64_le;
use crate::wire::read_varint;
use crate::wire::vdec;
use crate::wire::vdec64;
use crate::wire::lemma_vdec_advances;
use crate::Error;

verus! {

/// The eight magic bytes opening every trailer: `sonn-seg` in ascii.
pub open spec fn magic() -> Seq<u8> {
    seq![0x73u8, 0x6fu8, 0x6eu8, 0x6eu8, 0x2du8, 0x73u8, 0x65u8, 0x67u8]
}

/// The format version this library writes and reads.
pub open spec fn spec_version() -> u8 {
    1
}

/// Decode `n` records of one block's payload from `pos` on.  `prev` is
/// the timestamp the last record before `pos` carried, or `None` at the
/// start of the block, where the timestamp stands absolute.
pub open spec fn payload_dec(
    pl: Seq<u8>,
    pos: int,
    n: nat,
    prev: Option<u64>,
    key: Seq<u8>,
    fmt: Seq<u8>,
) -> Option<(Seq<Rec>, int)>
    decreases n,
{
    if n == 0 {
        Some((Seq::empty(), pos))
    } else {
        let parsed_ts = (match prev {
            None => if pos < 0 || pos + 8 > pl.len() {
                None
            } else {
                Some(((le64_dec(pl, pos) as u64), pos + 8))
            },
            Some(p) => match vdec64(pl, pos) {
                None => None,
                Some((d, tpos)) => if p + d > u64::MAX {
                    None
                } else {
                    Some((((p + d) as u64), tpos))
                },
            },
        });
        match parsed_ts {
            None => None,
            Some((ts, tpos)) => match vdec64(pl, tpos) {
                None => None,
                Some((vlen, q)) => if q + vlen > pl.len() {
                    None
                } else {
                    let val = pl.subrange(q, q + vlen);
                    match payload_dec(pl, q + vlen, (n - 1) as nat, Some(ts), key, fmt) {
                        None => None,
                        Some((rs, e)) => Some(
                            (seq![(Rec { key, ts, fmt, value: val })] + rs, e),
                        ),
                    }
                },
            },
        }
    }
}

/// A whole payload: all `n` records, consuming every byte.
pub open spec fn payload_full(pl: Seq<u8>, n: nat, key: Seq<u8>, fmt: Seq<u8>) -> Option<Seq<Rec>> {
    match payload_dec(pl, 0, n, None, key, fmt) {
        None => None,
        Some((rs, e)) => if e == pl.len() {
            Some(rs)
        } else {
            None
        },
    }
}

/// Decode one block at `pos`: its records and the position after it.
pub open spec fn block_dec(b: Seq<u8>, pos: int) -> Option<(Seq<Rec>, int)> {
    match vdec64(b, pos) {
        None => None,
        Some((klen, p1)) => if p1 + klen > b.len() {
            None
        } else {
            let key = b.subrange(p1, p1 + klen);
            match vdec64(b, p1 + klen) {
                None => None,
                Some((flen, p2)) => if p2 + flen > b.len() {
                    None
                } else {
                    let fmt = b.subrange(p2, p2 + flen);
                    match vdec64(b, p2 + flen) {
                        None => None,
                        Some((count, p3)) => match vdec64(b, p3) {
                            None => None,
                            Some((plen, p4)) => if p4 + plen > b.len() {
                                None
                            } else {
                                match decompress_of(b.subrange(p4, p4 + plen)) {
                                    None => None,
                                    Some(pl) => match payload_full(pl, count as nat, key, fmt) {
                                        None => None,
                                        Some(rs) => Some((rs, p4 + plen)),
                                    },
                                }
                            },
                        },
                    }
                },
            }
        },
    }
}

/// Decode the run of blocks filling `[pos, end)` exactly.
pub open spec fn blocks_dec(b: Seq<u8>, pos: int, end: int) -> Option<Seq<Rec>>
    decreases end - pos,
{
    if pos > end || end > b.len() || pos < 0 {
        None
    } else if pos == end {
        Some(Seq::empty())
    } else {
        match block_dec(b, pos) {
            None => None,
            Some((rs, p2)) => if p2 <= pos || p2 > end {
                None
            } else {
                match blocks_dec(b, p2, end) {
                    None => None,
                    Some(rest) => Some(rs + rest),
                }
            },
        }
    }
}

/// What a segment image means: its records in stored order, or `None`
/// where the image is corrupt.  An empty image is an empty segment.
pub open spec fn seg_dec(b: Seq<u8>) -> Option<Seq<Rec>> {
    if b.len() == 0 {
        Some(Seq::empty())
    } else if b.len() < 33 {
        None
    } else {
        let t = b.len() - 33;
        if b.subrange(t, t + 8) != magic() || b[t + 8] != spec_version() {
            None
        } else {
            let index_off = le64_dec(b, t + 9);
            let index_size = le64_dec(b, t + 17);
            if index_off + index_size != t {
                None
            } else {
                blocks_dec(b, 0, index_off)
            }
        }
    }
}

/// A varint means the same after unrelated bytes are appended.
pub proof fn lemma_vdec_append(b: Seq<u8>, s: Seq<u8>, pos: int, fuel: nat)
    requires
        vdec(b, pos, fuel) is Some,
    ensures
        vdec(b + s, pos, fuel) == vdec(b, pos, fuel),
    decreases fuel,
{
    assert((b + s)[pos] == b[pos]);
    if !(b[pos] < 128) {
        lemma_vdec_append(b, s, pos + 1, (fuel - 1) as nat);
    }
}

pub proof fn lemma_vdec64_append(b: Seq<u8>, s: Seq<u8>, pos: int)
    requires
        vdec64(b, pos) is Some,
    ensures
        vdec64(b + s, pos) == vdec64(b, pos),
{
    lemma_vdec_append(b, s, pos, 10);
}

/// A payload prefix means the same after bytes are appended, and a
/// successful parse never reads past the bytes it reports consumed.
pub proof fn lemma_payload_append(
    pl: Seq<u8>,
    s: Seq<u8>,
    pos: int,
    n: nat,
    prev: Option<u64>,
    key: Seq<u8>,
    fmt: Seq<u8>,
)
    requires
        0 <= pos <= pl.len(),
        payload_dec(pl, pos, n, prev, key, fmt) is Some,
    ensures
        payload_dec(pl + s, pos, n, prev, key, fmt) == payload_dec(pl, pos, n, prev, key, fmt),
        pos <= payload_dec(pl, pos, n, prev, key, fmt)->Some_0.1 <= pl.len(),
    decreases n,
{
    if n == 0 {
    } else {
        match prev {
            None => {
                assert forall|j: int| pos <= j < pos + 8 implies (pl + s)[j] == pl[j] by {}
                assert(le64_dec(pl + s, pos) == le64_dec(pl, pos));
            },
            Some(p) => {
                lemma_vdec64_append(pl, s, pos);
                lemma_vdec_advances(pl, pos, 10);
            },
        }
        let (ts, tpos): (u64, int) = (match prev {
            None => ((le64_dec(pl, pos) as u64), pos + 8),
            Some(p) => {
                let (d, tp) = vdec64(pl, pos)->Some_0;
                (((p + d) as u64), tp)
            },
        });
        lemma_vdec64_append(pl, s, tpos);
        lemma_vdec_advances(pl, tpos, 10);
        let (vlen, q) = vdec64(pl, tpos)->Some_0;
        assert((pl + s).subrange(q, q + vlen) =~= pl.subrange(q, q + vlen));
        lemma_payload_append(pl, s, q + vlen, (n - 1) as nat, Some(ts), key, fmt);
    }
}

/// Parsing `n + 1` records splits into parsing `n` and then one more
/// where the first parse stopped.
pub proof fn lemma_payload_extend(
    pl: Seq<u8>,
    pl2: Seq<u8>,
    pos: int,
    n: nat,
    prev: Option<u64>,
    key: Seq<u8>,
    fmt: Seq<u8>,
    rs: Seq<Rec>,
    rec: Rec,
)
    requires
        0 <= pos <= pl.len(),
        pl2.subrange(0, pl.len() as int) == pl,
        pl.len() <= pl2.len(),
        payload_dec(pl, pos, n, prev, key, fmt) == Some((rs, pl.len() as int)),
        payload_dec(
            pl2,
            pl.len() as int,
            1,
            (if n == 0 {
                prev
            } else {
                Some(rs.last().ts)
            }),
            key,
            fmt,
        ) == Some((seq![rec], pl2.len() as int)),
    ensures
        payload_dec(pl2, pos, (n + 1) as nat, prev, key, fmt) == Some(
            (rs + seq![rec], pl2.len() as int),
        ),
    decreases n,
{
    let s = pl2.subrange(pl.len() as int, pl2.len() as int);
    assert(pl2 =~= pl + s);
    if n == 0 {
        assert(pos == pl.len());
        assert(rs + seq![rec] =~= seq![rec]);
    } else {
        lemma_payload_append(pl, s, pos, n, prev, key, fmt);
        // unfold one step of the parse of pl at pos
        match prev {
            None => {
                assert(le64_dec(pl2, pos) == le64_dec(pl, pos));
            },
            Some(p) => {
                lemma_vdec64_append(pl, s, pos);
            },
        }
        let (ts, tpos): (u64, int) = (match prev {
            None => ((le64_dec(pl, pos) as u64), pos + 8),
            Some(p) => {
                let (d, tp) = vdec64(pl, pos)->Some_0;
                (((p + d) as u64), tp)
            },
        });
        lemma_vdec64_append(pl, s, tpos);
        lemma_vdec_advances(pl, tpos, 10);
        let (vlen, q) = vdec64(pl, tpos)->Some_0;
        assert(pl2.subrange(q, q + vlen) =~= pl.subrange(q, q + vlen));
        let tail = payload_dec(pl, q + vlen, (n - 1) as nat, Some(ts), key, fmt);
        let trs = tail->Some_0.0;
        assert(rs == seq![(Rec { key, ts, fmt, value: pl.subrange(q, q + vlen) })] + trs);
        assert(rs.last() == (if trs.len() == 0 {
            rs[0]
        } else {
            trs.last()
        }));
        if n == 1 {
            assert(trs.len() == 0);
            assert(rs[0].ts == ts);
        }
        lemma_payload_extend(pl, pl2, q + vlen, (n - 1) as nat, Some(ts), key, fmt, trs, rec);
        assert(seq![(Rec { key, ts, fmt, value: pl.subrange(q, q + vlen) })] + (trs + seq![rec])
            =~= rs + seq![rec]);
    }
}

/// A block means the same after unrelated bytes are appended.
pub proof fn lemma_block_append(b: Seq<u8>, s: Seq<u8>, pos: int)
    requires
        block_dec(b, pos) is Some,
    ensures
        block_dec(b + s, pos) == block_dec(b, pos),
        pos < block_dec(b, pos)->Some_0.1 <= b.len(),
{
    lemma_vdec64_append(b, s, pos);
    lemma_vdec_advances(b, pos, 10);
    let (klen, p1) = vdec64(b, pos)->Some_0;
    assert((b + s).subrange(p1, p1 + klen) =~= b.subrange(p1, p1 + klen));
    lemma_vdec64_append(b, s, p1 + klen);
    lemma_vdec_advances(b, p1 + klen, 10);
    let (flen, p2) = vdec64(b, p1 + klen)->Some_0;
    assert((b + s).subrange(p2, p2 + flen) =~= b.subrange(p2, p2 + flen));
    lemma_vdec64_append(b, s, p2 + flen);
    lemma_vdec_advances(b, p2 + flen, 10);
    let (count, p3) = vdec64(b, p2 + flen)->Some_0;
    lemma_vdec64_append(b, s, p3);
    lemma_vdec_advances(b, p3, 10);
    let (plen, p4) = vdec64(b, p3)->Some_0;
    assert((b + s).subrange(p4, p4 + plen) =~= b.subrange(p4, p4 + plen));
}

/// A run of blocks means the same after unrelated bytes are appended.
pub proof fn lemma_blocks_append(b: Seq<u8>, s: Seq<u8>, pos: int, end: int)
    requires
        blocks_dec(b, pos, end) is Some,
    ensures
        blocks_dec(b + s, pos, end) == blocks_dec(b, pos, end),
    decreases end - pos,
{
    if pos == end {
    } else {
        lemma_block_append(b, s, pos);
        let (rs, p2) = block_dec(b, pos)->Some_0;
        lemma_blocks_append(b, s, p2, end);
    }
}

/// Appending one decodable block to a decodable run extends the run.
pub proof fn lemma_blocks_snoc(b: Seq<u8>, pos: int, mid: int, end: int)
    requires
        blocks_dec(b, pos, mid) is Some,
        block_dec(b, mid) is Some,
        block_dec(b, mid)->Some_0.1 == end,
        mid < end <= b.len(),
    ensures
        blocks_dec(b, pos, end) == Some(
            blocks_dec(b, pos, mid)->Some_0 + block_dec(b, mid)->Some_0.0,
        ),
    decreases mid - pos,
{
    let cs = block_dec(b, mid)->Some_0.0;
    if pos == mid {
        assert(blocks_dec(b, end, end) == Some(Seq::<Rec>::empty()));
        assert(cs + Seq::<Rec>::empty() =~= cs);
        assert(Seq::<Rec>::empty() + cs =~= cs);
    } else {
        let (rs, p2) = block_dec(b, pos)->Some_0;
        lemma_blocks_snoc(b, p2, mid, end);
        let rest = blocks_dec(b, p2, mid)->Some_0;
        assert(rs + (rest + cs) =~= (rs + rest) + cs);
    }
}

/// Copy `b[i..j]` into a fresh vector.
pub fn subvec(b: &[u8], i: usize, j: usize) -> (r: Vec<u8>)
    requires
        i <= j <= b@.len(),
    ensures
        r@ == b@.subrange(i as int, j as int),
{
    vstd::slice::slice_to_vec(vstd::slice::slice_subrange(b, i, j))
}

/// Append all of `s` to `out`.
pub fn append_slice(out: &mut Vec<u8>, s: &[u8])
    ensures
        final(out)@ == old(out)@ + s@,
{
    let n: usize = s.len();
    let mut i: usize = 0;
    while i < n
        invariant
            i <= n,
            n == s@.len(),
            out@ == old(out)@ + s@.subrange(0, i as int),
        decreases n - i,
    {
        out.push(s[i]);
        proof {
            assert(old(out)@ + s@.subrange(0, i + 1) =~= (old(out)@ + s@.subrange(0, i as int)).push(
                s@[i as int],
            ));
        }
        i += 1;
    }
    proof {
        assert(s@.subrange(0, n as int) =~= s@);
    }
}

/// Decode one block's payload: exactly [`payload_full`].
pub fn decode_payload(pl: &[u8], count: u64, key: &[u8], fmt: &[u8]) -> (r: Option<Vec<Record>>)
    ensures
        match r {
            Some(v) => payload_full(pl@, count as nat, key@, fmt@) == Some(views_of(v@)),
            None => payload_full(pl@, count as nat, key@, fmt@) is None,
        },
{
    let len: usize = pl.len();
    let mut out: Vec<Record> = Vec::new();
    let mut pos: usize = 0;
    let mut i: u64 = 0;
    let mut prev: u64 = 0;
    while i < count
        invariant
            i <= count,
            pos <= len,
            len == pl@.len(),
            views_of(out@).len() == i,
            (match payload_dec(
                pl@,
                pos as int,
                (count - i) as nat,
                (if i == 0 {
                    None
                } else {
                    Some(prev)
                }),
                key@,
                fmt@,
            ) {
                None => payload_dec(pl@, 0, count as nat, None, key@, fmt@) is None,
                Some((rs, e)) => payload_dec(pl@, 0, count as nat, None, key@, fmt@) == Some(
                    (views_of(out@) + rs, e),
                ),
            }),
        decreases count - i,
    {
        let ghost n_left = (count - i) as nat;
        let ghost prevopt: Option<u64> = if i == 0 { None } else { Some(prev) };
        let ts: u64;
        let tpos: usize;
        if i == 0 {
            if len - pos < 8 {
                return None;
            }
            ts = read_u64_le(pl, pos);
            tpos = pos + 8;
        } else {
            match read_varint(pl, pos) {
                None => {
                    return None;
                },
                Some((d, tp)) => {
                    if d > u64::MAX - prev {
                        return None;
                    }
                    ts = prev + d;
                    tpos = tp;
                },
            }
        }
        match read_varint(pl, tpos) {
            None => {
                return None;
            },
            Some((vlen, q)) => {
                if vlen > (len - q) as u64 {
                    return None;
                }
                let vl = vlen as usize;
                let val = subvec(pl, q, q + vl);
                let rec = Record::new(subvec(key, 0, key.len()), ts, subvec(fmt, 0, fmt.len()), val);
                proof {
                    assert(key@.subrange(0, key@.len() as int) =~= key@);
                    assert(fmt@.subrange(0, fmt@.len() as int) =~= fmt@);
                    let step = payload_dec(pl@, pos as int, n_left, prevopt, key@, fmt@);
                    assert(step is Some ==> step->Some_0.0 == seq![rec@] + payload_dec(
                        pl@,
                        q + vlen,
                        (n_left - 1) as nat,
                        Some(ts),
                        key@,
                        fmt@,
                    )->Some_0.0);
                    lemma_views_push(out@, rec);
                    if payload_dec(pl@, q + vlen, (n_left - 1) as nat, Some(ts), key@, fmt@)
                        is Some {
                        let rest = payload_dec(
                            pl@,
                            q + vlen,
                            (n_left - 1) as nat,
                            Some(ts),
                            key@,
                            fmt@,
                        )->Some_0.0;
                        assert(views_of(out@) + (seq![rec@] + rest) =~= views_of(out@).push(rec@)
                            + rest);
                    }
                }
                out.push(rec);
                pos = q + vl;
                prev = ts;
                i = i + 1;
            },
        }
    }
    if pos == len {
        Some(out)
    } else {
        None
    }
}

/// Decode one block at `pos`: exactly [`block_dec`].
pub fn decode_block(b: &[u8], pos: usize) -> (r: Option<(Vec<Record>, usize)>)
    ensures
        match r {
            Some((v, e)) => block_dec(b@, pos as int) == Some((views_of(v@), e as int)) && pos < e
                && e <= b@.len(),
            None => block_dec(b@, pos as int) is None,
        },
{
    let len: usize = b.len();
    let (klen, p1) = match read_varint(b, pos) {
        None => {
            return None;
        },
        Some(x) => x,
    };
    if klen > (len - p1) as u64 {
        return None;
    }
    let key = subvec(b, p1, p1 + klen as usize);
    let (flen, p2) = match read_varint(b, p1 + klen as usize) {
        None => {
            return None;
        },
        Some(x) => x,
    };
    if flen > (len - p2) as u64 {
        return None;
    }
    let fmt = subvec(b, p2, p2 + flen as usize);
    let (count, p3) = match read_varint(b, p2 + flen as usize) {
        None => {
            return None;
        },
        Some(x) => x,
    };
    let (plen, p4) = match read_varint(b, p3) {
        None => {
            return None;
        },
        Some(x) => x,
    };
    if plen > (len - p4) as u64 {
        return None;
    }
    let comp = vstd::slice::slice_subrange(b, p4, p4 + plen as usize);
    let pl = match decompress(comp) {
        None => {
            return None;
        },
        Some(x) => x,
    };
    match decode_payload(pl.as_slice(), count, key.as_slice(), fmt.as_slice()) {
        None => None,
        Some(v) => Some((v, p4 + plen as usize)),
    }
}

} // verus!
