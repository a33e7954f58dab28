//! Fixed-width big-endian scalar reads, with exact-match and range checks.
use vstd::prelude::*;

verus! {

/// The single taxonomy of decode failures.
#[derive(Debug, Clone, Copy, PartialEq, Eq, Structural)]
pub enum DecodeError {
    /// An exact-match field does not hold its expected value.
    Mismatch { offset: usize, expected: i32, found: i32 },
    /// A field lies outside its inclusive bound.
    OutOfRange { offset: usize, low: i32, high: i32, found: i32 },
    /// No structural constants are known for this serial number.
    UnknownVersion { serial: i32 },
    /// The input ends `needed` bytes short of a field that starts at `offset`.
    Truncated { offset: usize, needed: usize },
}

/// Unsigned value of the `w` bytes at `p`, most significant first.
pub open spec fn be_uint(s: Seq<u8>, p: int, w: nat) -> int
    decreases w,
{
    if w == 0 {
        0
    } else {
        be_uint(s, p, (w - 1) as nat) * 256 + s[p + w - 1] as int
    }
}

/// Two's-complement reading of the `w` bytes at `p`.
pub open spec fn be_int(s: Seq<u8>, p: int, w: nat) -> int {
    let u = be_uint(s, p, w);
    if w > 0 && u >= pow2((8 * w - 1) as nat) { u - pow2(8 * w) } else { u }
}

pub open spec fn pow2(n: nat) -> int
    decreases n,
{
    if n == 0 { 1 } else { 2 * pow2((n - 1) as nat) }
}

pub open spec fn be_i32_at(s: Seq<u8>, p: int) -> int {
    be_int(s, p, 4)
}

pub open spec fn be_i16_at(s: Seq<u8>, p: int) -> int {
    be_int(s, p, 2)
}

pub open spec fn be_u16_at(s: Seq<u8>, p: int) -> int {
    be_uint(s, p, 2)
}

pub open spec fn be_i64_at(s: Seq<u8>, p: int) -> int {
    be_int(s, p, 8)
}

/// The failure for a field of `w` bytes at `p` that does not fit in `s`.
pub open spec fn truncated(s: Seq<u8>, p: int, w: int) -> DecodeError {
    DecodeError::Truncated { offset: p as usize, needed: (p + w - s.len()) as usize }
}

/// Whether a 32-bit field at `p` is present and within `[lo, hi]`.
pub open spec fn ranged_ok(s: Seq<u8>, p: int, lo: i32, hi: i32) -> bool {
    p + 4 <= s.len() && lo <= be_i32_at(s, p) <= hi
}

/// The failure for a 32-bit field at `p` that is absent or out of `[lo, hi]`.
pub open spec fn ranged_err(s: Seq<u8>, p: int, lo: i32, hi: i32) -> DecodeError {
    if p + 4 > s.len() {
        truncated(s, p, 4)
    } else {
        DecodeError::OutOfRange { offset: p as usize, low: lo, high: hi, found: be_i32_at(s, p) as i32 }
    }
}

proof fn lemma_be_4(s: Seq<u8>, p: int)
    requires
        0 <= p,
        p + 4 <= s.len(),
    ensures
        be_uint(s, p, 4) == s[p] * 16777216 + s[p + 1] * 65536 + s[p + 2] * 256 + s[p + 3],
        pow2(31) == 0x8000_0000,
        pow2(32) == 0x1_0000_0000,
{
    reveal_with_fuel(be_uint, 5);
    reveal_with_fuel(pow2, 33);
}

/// Reads the big-endian `i32` at `pos`.
pub fn read_i32(input: &[u8], pos: usize) -> (r: Result<(i32, usize), DecodeError>)
    requires
        pos <= input@.len(),
    ensures
        match r {
            Ok((v, e)) => pos + 4 <= input@.len() && v == be_i32_at(input@, pos as int) && e == pos + 4,
            Err(err) => pos + 4 > input@.len() && err == truncated(input@, pos as int, 4),
        },
{
    if input.len() - pos < 4 {
        return Err(DecodeError::Truncated { offset: pos, needed: 4 - (input.len() - pos) });
    }
    proof {
        lemma_be_4(input@, pos as int);
    }
    let u: u32 = (input[pos] as u32) * 16777216 + (input[pos + 1] as u32) * 65536
        + (input[pos + 2] as u32) * 256 + (input[pos + 3] as u32);
    let v: i32 = if u < 0x8000_0000 {
        u as i32
    } else {
        ((u - 0x8000_0000) as i32) - 0x7fff_ffff - 1
    };
    Ok((v, pos + 4))
}

proof fn lemma_be_2(s: Seq<u8>, p: int)
    requires
        0 <= p,
        p + 2 <= s.len(),
    ensures
        be_uint(s, p, 2) == s[p] * 256 + s[p + 1],
        pow2(15) == 0x8000,
        pow2(16) == 0x1_0000,
{
    reveal_with_fuel(be_uint, 3);
    reveal_with_fuel(pow2, 17);
}

proof fn lemma_be_8(s: Seq<u8>, p: int)
    requires
        0 <= p,
        p + 8 <= s.len(),
    ensures
        be_uint(s, p, 8) == s[p] * 0x100_0000_0000_0000 + s[p + 1] * 0x1_0000_0000_0000
            + s[p + 2] * 0x100_0000_0000 + s[p + 3] * 0x1_0000_0000 + s[p + 4] * 16777216
            + s[p + 5] * 65536 + s[p + 6] * 256 + s[p + 7],
        pow2(63) == 0x8000_0000_0000_0000,
        pow2(64) == 0x1_0000_0000_0000_0000,
{
    reveal_with_fuel(be_uint, 9);
    reveal_with_fuel(pow2, 65);
}

/// Reads the big-endian `i16` at `pos`.
pub fn read_i16(input: &[u8], pos: usize) -> (r: Result<(i16, usize), DecodeError>)
    requires
        pos <= input@.len(),
    ensures
        match r {
            Ok((v, e)) => pos + 2 <= input@.len() && v == be_i16_at(input@, pos as int) && e == pos + 2,
            Err(err) => pos + 2 > input@.len() && err == truncated(input@, pos as int, 2),
        },
{
    if input.len() - pos < 2 {
        return Err(DecodeError::Truncated { offset: pos, needed: 2 - (input.len() - pos) });
    }
    proof {
        lemma_be_2(input@, pos as int);
    }
    let u: u16 = (input[pos] as u16) * 256 + (input[pos + 1] as u16);
    let v: i16 = if u < 0x8000 {
        u as i16
    } else {
        ((u - 0x8000) as i16) - 0x7fff - 1
    };
    Ok((v, pos + 2))
}

/// Reads the big-endian `u16` at `pos`.
pub fn read_u16(input: &[u8], pos: usize) -> (r: Result<(u16, usize), DecodeError>)
    requires
        pos <= input@.len(),
    ensures
        match r {
            Ok((v, e)) => pos + 2 <= input@.len() && v == be_u16_at(input@, pos as int) && e == pos + 2,
            Err(err) => pos + 2 > input@.len() && err == truncated(input@, pos as int, 2),
        },
{
    if input.len() - pos < 2 {
        return Err(DecodeError::Truncated { offset: pos, needed: 2 - (input.len() - pos) });
    }
    proof {
        lemma_be_2(input@, pos as int);
    }
    let u: u16 = (input[pos] as u16) * 256 + (input[pos + 1] as u16);
    Ok((u, pos + 2))
}

/// Reads the big-endian `i64` at `pos`.
pub fn read_i64(input: &[u8], pos: usize) -> (r: Result<(i64, usize), DecodeError>)
    requires
        pos <= input@.len(),
    ensures
        match r {
            Ok((v, e)) => pos + 8 <= input@.len() && v == be_i64_at(input@, pos as int) && e == pos + 8,
            Err(err) => pos + 8 > input@.len() && err == truncated(input@, pos as int, 8),
        },
{
    if input.len() - pos < 8 {
        return Err(DecodeError::Truncated { offset: pos, needed: 8 - (input.len() - pos) });
    }
    proof {
        lemma_be_8(input@, pos as int);
    }
    let u: u64 = (input[pos] as u64) * 0x100_0000_0000_0000 + (input[pos + 1] as u64) * 0x1_0000_0000_0000
        + (input[pos + 2] as u64) * 0x100_0000_0000 + (input[pos + 3] as u64) * 0x1_0000_0000
        + (input[pos + 4] as u64) * 16777216 + (input[pos + 5] as u64) * 65536
        + (input[pos + 6] as u64) * 256 + (input[pos + 7] as u64);
    let v: i64 = if u < 0x8000_0000_0000_0000 {
        u as i64
    } else {
        ((u - 0x8000_0000_0000_0000) as i64) - 0x7fff_ffff_ffff_ffff - 1
    };
    Ok((v, pos + 8))
}

/// Reads the `i32` at `pos` and fails unless it equals `expected`.
pub fn expect_i32(input: &[u8], pos: usize, expected: i32) -> (r: Result<usize, DecodeError>)
    requires
        pos <= input@.len(),
    ensures
        match r {
            Ok(e) => pos + 4 <= input@.len() && be_i32_at(input@, pos as int) == expected && e == pos + 4,
            Err(err) => if pos + 4 > input@.len() {
                err == truncated(input@, pos as int, 4)
            } else {
                be_i32_at(input@, pos as int) != expected && err == (DecodeError::Mismatch {
                    offset: pos,
                    expected: expected,
                    found: be_i32_at(input@, pos as int) as i32,
                })
            },
        },
{
    let (v, e) = read_i32(input, pos)?;
    if v != expected {
        return Err(DecodeError::Mismatch { offset: pos, expected, found: v });
    }
    Ok(e)
}

/// Reads the `i32` at `pos` and fails unless it lies in `[lo, hi]`.
pub fn ranged_i32(input: &[u8], pos: usize, lo: i32, hi: i32) -> (r: Result<(i32, usize), DecodeError>)
    requires
        pos <= input@.len(),
    ensures
        match r {
            Ok((v, e)) => ranged_ok(input@, pos as int, lo, hi) && v == be_i32_at(input@, pos as int)
                && e == pos + 4,
            Err(err) => !ranged_ok(input@, pos as int, lo, hi) && err == ranged_err(input@, pos as int, lo, hi),
        },
{
    let (v, e) = read_i32(input, pos)?;
    if v < lo || v > hi {
        return Err(DecodeError::OutOfRange { offset: pos, low: lo, high: hi, found: v });
    }
    Ok((v, e))
}

/// Where an array of `w`-byte fields starting at `pos` first runs past the end.
pub open spec fn short_at(s: Seq<u8>, pos: int, w: int) -> int {
    pos + w * ((s.len() - pos) / w)
}

proof fn lemma_short_at(s: Seq<u8>, pos: int, w: int, i: int)
    requires
        0 < w,
        0 <= i,
        pos + w * i <= s.len() < pos + w * (i + 1),
    ensures
        short_at(s, pos, w) == pos + w * i,
{
    let x = s.len() - pos;
    assert(w * (i + 1) == w * i + w) by (nonlinear_arith);
    assert(x / w == i) by (nonlinear_arith)
        requires
            0 < w,
            0 <= i,
            w * i <= x < w * i + w,
    {
        vstd::arithmetic::div_mod::lemma_fundamental_div_mod_converse(x, w, i, x - w * i);
    }
}

/// Reads `n` consecutive big-endian `i16` fields starting at `pos`.
pub fn read_i16_array(input: &[u8], pos: usize, n: usize) -> (r: Result<(Vec<i16>, usize), DecodeError>)
    requires
        pos <= input@.len(),
    ensures
        match r {
            Ok((v, e)) => pos + 2 * n <= input@.len() && e == pos + 2 * n && v@.len() == n
                && forall|i: int| 0 <= i < n ==> v@[i] == be_i16_at(input@, pos + 2 * i),
            Err(err) => pos + 2 * n > input@.len()
                && err == truncated(input@, short_at(input@, pos as int, 2), 2),
        },
{
    let mut v: Vec<i16> = Vec::new();
    let mut p: usize = pos;
    let mut i: usize = 0;
    while i < n
        invariant
            pos <= p <= input@.len(),
            p == pos + 2 * i,
            i <= n,
            v@.len() == i,
            forall|j: int| 0 <= j < i ==> v@[j] == be_i16_at(input@, pos + 2 * j),
        decreases n - i,
    {
        match read_i16(input, p) {
            Ok((x, e)) => {
                v.push(x);
                p = e;
                i = i + 1;
            },
            Err(err) => {
                proof {
                    lemma_short_at(input@, pos as int, 2, i as int);
                }
                return Err(err);
            },
        }
    }
    Ok((v, p))
}

/// Reads `n` consecutive big-endian `u16` fields starting at `pos`.
pub fn read_u16_array(input: &[u8], pos: usize, n: usize) -> (r: Result<(Vec<u16>, usize), DecodeError>)
    requires
        pos <= input@.len(),
    ensures
        match r {
            Ok((v, e)) => pos + 2 * n <= input@.len() && e == pos + 2 * n && v@.len() == n
                && forall|i: int| 0 <= i < n ==> v@[i] == be_u16_at(input@, pos + 2 * i),
            Err(err) => pos + 2 * n > input@.len()
                && err == truncated(input@, short_at(input@, pos as int, 2), 2),
        },
{
    let mut v: Vec<u16> = Vec::new();
    let mut p: usize = pos;
    let mut i: usize = 0;
    while i < n
        invariant
            pos <= p <= input@.len(),
            p == pos + 2 * i,
            i <= n,
            v@.len() == i,
            forall|j: int| 0 <= j < i ==> v@[j] == be_u16_at(input@, pos + 2 * j),
        decreases n - i,
    {
        match read_u16(input, p) {
            Ok((x, e)) => {
                v.push(x);
                p = e;
                i = i + 1;
            },
            Err(err) => {
                proof {
                    lemma_short_at(input@, pos as int, 2, i as int);
                }
                return Err(err);
            },
        }
    }
    Ok((v, p))
}

/// Reads `n` consecutive big-endian `i32` fields starting at `pos`.
pub fn read_i32_array(input: &[u8], pos: usize, n: usize) -> (r: Result<(Vec<i32>, usize), DecodeError>)
    requires
        pos <= input@.len(),
    ensures
        match r {
            Ok((v, e)) => pos + 4 * n <= input@.len() && e == pos + 4 * n && v@.len() == n
                && forall|i: int| 0 <= i < n ==> v@[i] == be_i32_at(input@, pos + 4 * i),
            Err(err) => pos + 4 * n > input@.len()
                && err == truncated(input@, short_at(input@, pos as int, 4), 4),
        },
{
    let mut v: Vec<i32> = Vec::new();
    let mut p: usize = pos;
    let mut i: usize = 0;
    while i < n
        invariant
            pos <= p <= input@.len(),
            p == pos + 4 * i,
            i <= n,
            v@.len() == i,
            forall|j: int| 0 <= j < i ==> v@[j] == be_i32_at(input@, pos + 4 * j),
        decreases n - i,
    {
        match read_i32(input, p) {
            Ok((x, e)) => {
                v.push(x);
                p = e;
                i = i + 1;
            },
            Err(err) => {
                proof {
                    lemma_short_at(input@, pos as int, 4, i as int);
                }
                return Err(err);
            },
        }
    }
    Ok((v, p))
}

/// Reads `n` consecutive big-endian `i64` fields starting at `pos`.
pub fn read_i64_array(input: &[u8], pos: usize, n: usize) -> (r: Result<(Vec<i64>, usize), DecodeError>)
    requires
        pos <= input@.len(),
    ensures
        match r {
            Ok((v, e)) => pos + 8 * n <= input@.len() && e == pos + 8 * n && v@.len() == n
                && forall|i: int| 0 <= i < n ==> v@[i] == be_i64_at(input@, pos + 8 * i),
            Err(err) => pos + 8 * n > input@.len()
                && err == truncated(input@, short_at(input@, pos as int, 8), 8),
        },
{
    let mut v: Vec<i64> = Vec::new();
    let mut p: usize = pos;
    let mut i: usize = 0;
    while i < n
        invariant
            pos <= p <= input@.len(),
            p == pos + 8 * i,
            i <= n,
            v@.len() == i,
            forall|j: int| 0 <= j < i ==> v@[j] == be_i64_at(input@, pos + 8 * j),
        decreases n - i,
    {
        match read_i64(input, p) {
            Ok((x, e)) => {
                v.push(x);
                p = e;
                i = i + 1;
            },
            Err(err) => {
                proof {
                    lemma_short_at(input@, pos as int, 8, i as int);
                }
                return Err(err);
            },
        }
    }
    Ok((v, p))
}

/// Reads `n` consecutive `i32` fields starting at `pos`, each bound to `[lo, hi]`.
pub fn ranged_i32_array(input: &[u8], pos: usize, n: usize, lo: i32, hi: i32) -> (r: Result<(Vec<i32>, usize), DecodeError>)
    requires
        pos <= input@.len(),
    ensures
        match r {
            Ok((v, e)) => (forall|i: int| 0 <= i < n ==> #[trigger] ranged_ok(input@, pos + 4 * i, lo, hi))
                && e == pos + 4 * n && e <= input@.len() && v@.len() == n
                && (forall|i: int| 0 <= i < n ==> lo <= #[trigger] v@[i] <= hi)
                && forall|i: int| 0 <= i < n ==> v@[i] == be_i32_at(input@, pos + 4 * i),
            Err(err) => exists|k: int|
                0 <= k < n && (forall|i: int| 0 <= i < k ==> #[trigger] ranged_ok(input@, pos + 4 * i, lo, hi))
                    && !ranged_ok(input@, pos + 4 * k, lo, hi) && err == #[trigger] ranged_err(input@, pos + 4 * k, lo, hi),
        },
{
    let mut v: Vec<i32> = Vec::new();
    let mut p: usize = pos;
    let mut i: usize = 0;
    while i < n
        invariant
            pos <= p <= input@.len(),
            p == pos + 4 * i,
            i <= n,
            v@.len() == i,
            forall|j: int| 0 <= j < i ==> #[trigger] ranged_ok(input@, pos + 4 * j, lo, hi),
            forall|j: int| 0 <= j < i ==> lo <= #[trigger] v@[j] <= hi,
            forall|j: int| 0 <= j < i ==> v@[j] == be_i32_at(input@, pos + 4 * j),
        decreases n - i,
    {
        match ranged_i32(input, p, lo, hi) {
            Ok((x, e)) => {
                v.push(x);
                p = e;
                i = i + 1;
            },
            Err(err) => {
                assert(!ranged_ok(input@, pos + 4 * i, lo, hi));
                return Err(err);
            },
        }
    }
    Ok((v, p))
}

/// Whether two inputs of one length hold the same bytes below `n`.
pub open spec fn agree(s: Seq<u8>, t: Seq<u8>, n: int) -> bool {
    s.len() == t.len() && forall|i: int| 0 <= i < n ==> s[i] == t[i]
}

/// An unsigned field reads the same in inputs that agree on its bytes.
pub proof fn lemma_uint_frame(s: Seq<u8>, t: Seq<u8>, q: int, w: nat)
    requires
        forall|i: int| q <= i < q + w ==> s[i] == t[i],
    ensures
        be_uint(s, q, w) == be_uint(t, q, w),
    decreases w,
{
    if w > 0 {
        lemma_uint_frame(s, t, q, (w - 1) as nat);
    }
}

/// A 32-bit field below `n` reads the same in inputs that agree below `n`.
pub proof fn lemma_i32_frame(s: Seq<u8>, t: Seq<u8>, n: int, p: int)
    requires
        agree(s, t, n),
        0 <= p,
        p + 4 <= n,
    ensures
        be_i32_at(s, p) == be_i32_at(t, p),
        forall|lo: i32, hi: i32| ranged_ok(s, p, lo, hi) == #[trigger] ranged_ok(t, p, lo, hi),
{
    lemma_uint_frame(s, t, p, 4);
}

/// A 32-bit field reads as an `i32`.
pub proof fn lemma_i32_bounds(s: Seq<u8>, p: int)
    requires
        0 <= p,
        p + 4 <= s.len(),
    ensures
        i32::MIN <= be_i32_at(s, p) <= i32::MAX,
{
    lemma_be_4(s, p);
}

} // verus!
