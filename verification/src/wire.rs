//! Wire-level number encodings.
//!
//! Lengths, counts and timestamp deltas travel as base-128 varints, low
//! seven bits first; a continuation bit marks every byte but the last.
//! Absolute timestamps and trailer fields travel as eight little-endian
//! bytes.  Callers hand values in with their timestamp in the first eight
//! bytes, big-endian, so a big-endian reader stands here too.

use vstd::prelude::*;

verus! {

/// Decode a varint: the value and the position after it, or `None` where
/// the bytes end too early or the encoding runs past `fuel` bytes.
pub open spec fn vdec(b: Seq<u8>, pos: int, fuel: nat) -> Option<(int, int)>
    decreases fuel,
{
    if fuel == 0 || pos < 0 || pos >= b.len() {
        None
    } else if b[pos] < 128 {
        Some((b[pos] as int, pos + 1))
    } else {
        match vdec(b, pos + 1, (fuel - 1) as nat) {
            None => None,
            Some((v, e)) => Some(((b[pos] - 128) as int + 128 * v, e)),
        }
    }
}

/// Decode a varint that must fit a `u64`; ten bytes bound every such
/// encoding.
pub open spec fn vdec64(b: Seq<u8>, pos: int) -> Option<(u64, int)> {
    match vdec(b, pos, 10) {
        None => None,
        Some((v, e)) => if v <= u64::MAX {
            Some((v as u64, e))
        } else {
            None
        },
    }
}

/// The canonical varint encoding of a non-negative value.
pub open spec fn venc(n: int) -> Seq<u8>
    decreases n,
{
    if n < 0 {
        Seq::empty()
    } else if n < 128 {
        seq![n as u8]
    } else {
        seq![(128 + (n % 128)) as u8] + venc(n / 128)
    }
}

/// A value below `128^k` encodes in at most `k` bytes.
pub proof fn lemma_venc_len(n: int, k: nat, p: int)
    requires
        0 <= n < p,
        k >= 1,
        p == pow128(k),
    ensures
        venc(n).len() <= k,
    decreases k,
{
    lemma_pow128_pos(k);
    if n >= 128 {
        assert(pow128(k) == 128 * pow128((k - 1) as nat));
        lemma_pow128_pos((k - 1) as nat);
        assert(n / 128 < pow128((k - 1) as nat)) by (nonlinear_arith)
            requires
                n < 128 * pow128((k - 1) as nat),
                pow128((k - 1) as nat) > 0,
                n >= 128,
        ;
        assert(k >= 2) by {
            if k == 1 {
                assert(pow128(1) == 128 * pow128(0));
            }
        }
        lemma_venc_len(n / 128, (k - 1) as nat, pow128((k - 1) as nat));
    }
}

/// Powers of 128.
pub open spec fn pow128(k: nat) -> int
    decreases k,
{
    if k == 0 {
        1
    } else {
        128 * pow128((k - 1) as nat)
    }
}

pub proof fn lemma_pow128_pos(k: nat)
    ensures
        pow128(k) > 0,
    decreases k,
{
    if k > 0 {
        lemma_pow128_pos((k - 1) as nat)
    }
}

/// Every `u64` fits below `128^10`.
pub proof fn lemma_u64_under_pow128_10()
    ensures
        u64::MAX < pow128(10),
{
    assert(pow128(10) == 0x400000000000000000) by {
        reveal_with_fuel(pow128, 11);
    }
}

/// A varint decodes to exactly the value it was encoded from, whatever
/// stands before or after it in the buffer.
pub proof fn lemma_vdec_venc(b: Seq<u8>, pos: int, n: int, fuel: nat)
    requires
        0 <= n,
        0 <= pos,
        pos + venc(n).len() <= b.len(),
        b.subrange(pos, pos + venc(n).len()) == venc(n),
        venc(n).len() <= fuel,
    ensures
        vdec(b, pos, fuel) == Some((n, pos + venc(n).len())),
    decreases n,
{
    if n < 128 {
        assert(b.subrange(pos, pos + 1)[0] == b[pos]);
        assert(b[pos] == n as u8);
    } else {
        let m: int = n / 128;
        let r: int = n % 128;
        vstd::arithmetic::div_mod::lemma_fundamental_div_mod(n, 128);
        let e: Seq<u8> = venc(n);
        assert(e == seq![(128 + r) as u8] + venc(m));
        assert(b.subrange(pos, pos + e.len() as int)[0] == b[pos]);
        assert(b[pos] == (128 + r) as u8);
        assert(b[pos] >= 128);
        assert(b.subrange(pos + 1, pos + 1 + venc(m).len() as int) =~= venc(m)) by {
            assert forall|j: int| 0 <= j < venc(m).len() implies #[trigger] b.subrange(
                pos + 1,
                pos + 1 + venc(m).len() as int,
            )[j] == venc(m)[j] by {
                assert(b.subrange(pos, pos + e.len() as int)[j + 1] == b[pos + 1 + j]);
                assert(e[j + 1] == venc(m)[j]);
            }
        }
        assert(m < n) by (nonlinear_arith)
            requires
                n >= 128,
                m == n / 128,
        ;
        lemma_vdec_venc(b, pos + 1, m, (fuel - 1) as nat);
        assert((b[pos] - 128) as int == r);
        assert(r + 128 * m == n);
    }
}

/// The `u64` form of the round trip, with the standard fuel.
pub proof fn lemma_vdec64_venc(b: Seq<u8>, pos: int, n: u64)
    requires
        0 <= pos,
        pos + venc(n as int).len() <= b.len(),
        b.subrange(pos, pos + venc(n as int).len()) == venc(n as int),
    ensures
        vdec64(b, pos) == Some((n, pos + venc(n as int).len())),
{
    lemma_u64_under_pow128_10();
    lemma_venc_len(n as int, 10, pow128(10));
    lemma_vdec_venc(b, pos, n as int, 10);
}

/// A successful varint decode consumes at least one byte and stays in the
/// buffer.
pub proof fn lemma_vdec_advances(b: Seq<u8>, pos: int, fuel: nat)
    requires
        vdec(b, pos, fuel) is Some,
    ensures
        pos < vdec(b, pos, fuel)->Some_0.1 <= b.len(),
    decreases fuel,
{
    if !(b[pos] < 128) {
        lemma_vdec_advances(b, pos + 1, (fuel - 1) as nat);
    }
}

/// Append the varint encoding of `n`.
pub fn write_varint(out: &mut Vec<u8>, n: u64)
    ensures
        final(out)@ == old(out)@ + venc(n as int),
{
    let ghost base = out@;
    let ghost full = venc(n as int);
    let mut m: u64 = n;
    let ghost mut done: Seq<u8> = Seq::empty();
    proof {
        assert(base + done =~= base);
        assert(done + venc(m as int) =~= full);
    }
    while m >= 128
        invariant
            out@ == base + done,
            done + venc(m as int) == full,
        decreases m,
    {
        let byte: u8 = ((m % 128) + 128) as u8;
        out.push(byte);
        proof {
            assert(venc(m as int) == seq![(128 + (m as int) % 128) as u8] + venc(m as int / 128));
            assert(byte as int == 128 + (m as int) % 128);
            assert(base + done.push(byte) =~= (base + done).push(byte));
            assert((done.push(byte)) + venc((m / 128) as int) =~= done + venc(m as int)) by {
                assert(venc(m as int)[0] == byte);
                assert(venc(m as int).drop_first() =~= venc((m / 128) as int));
            }
            done = done.push(byte);
        }
        m = m / 128;
    }
    let byte: u8 = m as u8;
    out.push(byte);
    proof {
        assert(venc(m as int) == seq![m as u8]);
        assert(base + done.push(byte) =~= (base + done).push(byte));
        assert(done.push(byte) =~= done + venc(m as int));
        assert(out@ == base + (done + venc(m as int)));
    }
}

/// Read a varint at `pos`; the exact executable mirror of [`vdec64`].
pub fn read_varint(b: &[u8], pos: usize) -> (r: Option<(u64, usize)>)
    ensures
        match r {
            Some((v, e)) => vdec64(b@, pos as int) == Some((v, e as int)) && pos < e && e <= b@.len(),
            None => vdec64(b@, pos as int) is None,
        },
{
    let len: usize = b.len();
    if pos >= len {
        return None;
    }
    let mut acc: u128 = 0;
    let mut mult: u128 = 1;
    let mut p: usize = pos;
    let mut fuel: u64 = 10;
    loop
        invariant
            pos <= p,
            p <= len,
            len == b@.len(),
            fuel <= 10,
            mult == pow128((10 - fuel) as nat),
            acc < mult,
            p - pos == 10 - fuel,
            (match vdec(b@, p as int, fuel as nat) {
                None => vdec(b@, pos as int, 10) is None,
                Some((v, e)) => vdec(b@, pos as int, 10) == Some((acc + mult * v, e)),
            }),
        decreases fuel,
    {
        proof {
            lemma_pow128_pos((10 - fuel) as nat);
            lemma_pow128_pos(10);
            lemma_pow128_under_u128((10 - fuel) as nat);
        }
        if fuel == 0 || p >= len {
            return None;
        }
        let byte: u8 = b[p];
        if byte < 128 {
            proof {
                assert(acc + mult * (byte as u128) < 128 * mult) by (nonlinear_arith)
                    requires
                        acc < mult,
                        byte < 128,
                        mult > 0,
                ;
            }
            let total: u128 = acc + mult * (byte as u128);
            proof {
                assert(vdec(b@, p as int, fuel as nat) == Some((byte as int, p + 1 as int)));
                assert(acc + mult * (byte as int) == total as int);
            }
            if total > u64::MAX as u128 {
                return None;
            }
            return Some((total as u64, p + 1));
        }
        proof {
            let inner = vdec(b@, p + 1 as int, (fuel - 1) as nat);
            match inner {
                None => {
                    assert(vdec(b@, p as int, fuel as nat) is None);
                }
                Some((v, e)) => {
                    assert(vdec(b@, p as int, fuel as nat) == Some(
                        ((byte - 128) as int + 128 * v, e),
                    ));
                    assert(acc + mult * ((byte - 128) as int + 128 * v) == (acc + mult * (byte
                        - 128) as int) + (mult * 128) * v) by (nonlinear_arith);
                }
            }
            assert(pow128((10 - (fuel - 1)) as nat) == 128 * pow128((10 - fuel) as nat));
        }
        proof {
            assert(acc + mult * ((byte - 128) as u128) < 128 * mult) by (nonlinear_arith)
                requires
                    acc < mult,
                    byte >= 128,
                    byte <= 255,
                    mult > 0,
            ;
            assert(128 * mult <= 128 * 0x100000000000000000000) by (nonlinear_arith)
                requires
                    mult <= 0x100000000000000000000,
            ;
        }
        acc = acc + mult * ((byte - 128) as u128);
        mult = mult * 128;
        p = p + 1;
        fuel = fuel - 1;
    }
}

/// Powers of 128 grow with the exponent.
pub proof fn lemma_pow128_mono(j: nat, k: nat)
    requires
        j <= k,
    ensures
        pow128(j) <= pow128(k),
    decreases k,
{
    if j < k {
        lemma_pow128_mono(j, (k - 1) as nat);
        lemma_pow128_pos((k - 1) as nat);
    }
}

/// Powers of 128 up to the tenth stay far under `u128::MAX`.
pub proof fn lemma_pow128_under_u128(k: nat)
    requires
        k <= 10,
    ensures
        pow128(k) <= 0x400000000000000000,
{
    lemma_pow128_mono(k, 10);
    assert(pow128(10) == 0x400000000000000000) by {
        reveal_with_fuel(pow128, 11);
    }
}

/// The eight little-endian bytes of `n`.
pub open spec fn le64_enc(n: u64) -> Seq<u8> {
    let x = n as int;
    seq![
        (x % 256) as u8,
        ((x / 256) % 256) as u8,
        ((x / 0x10000) % 256) as u8,
        ((x / 0x1000000) % 256) as u8,
        ((x / 0x100000000) % 256) as u8,
        ((x / 0x10000000000) % 256) as u8,
        ((x / 0x1000000000000) % 256) as u8,
        ((x / 0x100000000000000) % 256) as u8,
    ]
}

/// The value of eight little-endian bytes at `pos`.
pub open spec fn le64_dec(b: Seq<u8>, pos: int) -> int {
    b[pos] + 256 * (b[pos + 1] + 256 * (b[pos + 2] + 256 * (b[pos + 3] + 256 * (b[pos + 4] + 256 * (
    b[pos + 5] + 256 * (b[pos + 6] + 256 * b[pos + 7]))))))
}

/// Eight little-endian bytes decode to the value they were encoded from.
pub proof fn lemma_le64_roundtrip(b: Seq<u8>, pos: int, n: u64)
    requires
        0 <= pos,
        pos + 8 <= b.len(),
        b.subrange(pos, pos + 8) == le64_enc(n),
    ensures
        le64_dec(b, pos) == n,
{
    assert forall|j: int| 0 <= j < 8 implies b[pos + j] == le64_enc(n)[j] by {
        assert(b.subrange(pos, pos + 8)[j] == b[pos + j]);
    }
    let x = n as int;
    vstd::arithmetic::div_mod::lemma_div_denominator(x, 256, 256);
    vstd::arithmetic::div_mod::lemma_div_denominator(x, 0x10000, 256);
    vstd::arithmetic::div_mod::lemma_div_denominator(x, 0x1000000, 256);
    vstd::arithmetic::div_mod::lemma_div_denominator(x, 0x100000000, 256);
    vstd::arithmetic::div_mod::lemma_div_denominator(x, 0x10000000000, 256);
    vstd::arithmetic::div_mod::lemma_div_denominator(x, 0x1000000000000, 256);
    let q1 = x / 256;
    let q2 = x / 0x10000;
    let q3 = x / 0x1000000;
    let q4 = x / 0x100000000;
    let q5 = x / 0x10000000000;
    let q6 = x / 0x1000000000000;
    let q7 = x / 0x100000000000000;
    vstd::arithmetic::div_mod::lemma_fundamental_div_mod(x, 256);
    vstd::arithmetic::div_mod::lemma_fundamental_div_mod(q1, 256);
    vstd::arithmetic::div_mod::lemma_fundamental_div_mod(q2, 256);
    vstd::arithmetic::div_mod::lemma_fundamental_div_mod(q3, 256);
    vstd::arithmetic::div_mod::lemma_fundamental_div_mod(q4, 256);
    vstd::arithmetic::div_mod::lemma_fundamental_div_mod(q5, 256);
    vstd::arithmetic::div_mod::lemma_fundamental_div_mod(q6, 256);
    assert(q7 < 256) by (nonlinear_arith)
        requires
            0 <= x < 0x10000000000000000,
            q7 == x / 0x100000000000000,
    ;
    assert(q7 >= 0) by (nonlinear_arith)
        requires
            0 <= x,
            q7 == x / 0x100000000000000,
    ;
    assert(b[pos + 7] == q7 % 256);
    vstd::arithmetic::div_mod::lemma_small_mod(q7 as nat, 256);
    assert(b[pos + 7] == q7);
}/// Append the eight little-endian bytes of `n`.
pub fn write_u64_le(out: &mut Vec<u8>, n: u64)
    ensures
        final(out)@ == old(out)@ + le64_enc(n),
{
    let b0: u8 = (n % 256) as u8;
    let b1: u8 = ((n / 256) % 256) as u8;
    let b2: u8 = ((n / 0x10000) % 256) as u8;
    let b3: u8 = ((n / 0x1000000) % 256) as u8;
    let b4: u8 = ((n / 0x100000000) % 256) as u8;
    let b5: u8 = ((n / 0x10000000000) % 256) as u8;
    let b6: u8 = ((n / 0x1000000000000) % 256) as u8;
    let b7: u8 = ((n / 0x100000000000000) % 256) as u8;
    out.push(b0);
    out.push(b1);
    out.push(b2);
    out.push(b3);
    out.push(b4);
    out.push(b5);
    out.push(b6);
    out.push(b7);
    proof {
        assert(out@ =~= old(out)@ + le64_enc(n));
    }
}

/// Read eight little-endian bytes at `pos`.
pub fn read_u64_le(b: &[u8], pos: usize) -> (r: u64)
    requires
        pos + 8 <= b@.len(),
    ensures
        r == le64_dec(b@, pos as int),
{
    let len: usize = b.len();
    let mut v: u64 = b[pos + 7] as u64;
    v = v * 256 + (b[pos + 6] as u64);
    v = v * 256 + (b[pos + 5] as u64);
    v = v * 256 + (b[pos + 4] as u64);
    v = v * 256 + (b[pos + 3] as u64);
    v = v * 256 + (b[pos + 2] as u64);
    v = v * 256 + (b[pos + 1] as u64);
    v = v * 256 + (b[pos] as u64);
    v
}

/// The value of eight big-endian bytes at `pos`: how callers embed a
/// record's timestamp at the front of its value.
pub open spec fn be64_dec(b: Seq<u8>, pos: int) -> int {
    b[pos + 7] + 256 * (b[pos + 6] + 256 * (b[pos + 5] + 256 * (b[pos + 4] + 256 * (b[pos + 3] + 256
        * (b[pos + 2] + 256 * (b[pos + 1] + 256 * b[pos]))))))
}

/// Read eight big-endian bytes at `pos`.
pub fn read_u64_be(b: &[u8], pos: usize) -> (r: u64)
    requires
        pos + 8 <= b@.len(),
    ensures
        r == be64_dec(b@, pos as int),
{
    let len: usize = b.len();
    let mut v: u64 = b[pos] as u64;
    v = v * 256 + (b[pos + 1] as u64);
    v = v * 256 + (b[pos + 2] as u64);
    v = v * 256 + (b[pos + 3] as u64);
    v = v * 256 + (b[pos + 4] as u64);
    v = v * 256 + (b[pos + 5] as u64);
    v = v * 256 + (b[pos + 6] as u64);
    v = v * 256 + (b[pos + 7] as u64);
    v
}

} // verus!
