//! The hyphenation-pattern trie and its per-language operation index.
use vstd::prelude::*;
use crate::reader::{
    agree, lemma_i32_bounds, lemma_i32_frame, be_i16_at, be_i32_at, be_u16_at, ranged_err, ranged_i32, ranged_ok, read_i16_array, read_i32,
    read_i32_array, read_u16_array, truncated, DecodeError,
};

verus! {

/// Largest language id.
pub const BIGGEST_LANG: usize = 255;

/// Capacity of the hyphenation operation table.
pub const TRIE_OP_SIZE: i32 = 35111;

/// Sum of the counts of the claims `(lang, count)`.
pub open spec fn claims_sum(c: Seq<(int, int)>) -> int
    decreases c.len(),
{
    if c.len() == 0 {
        0
    } else {
        claims_sum(c.drop_last()) + c.last().1
    }
}

/// One past the largest language id that the next claim may name.
pub open spec fn lang_bound(c: Seq<(int, int)>) -> int {
    if c.len() == 0 {
        BIGGEST_LANG + 1
    } else {
        c.last().0
    }
}

/// Whether the claims can be read in turn from a budget of `total`
/// operations: each names a language below the previous one and takes
/// between one operation and what is left.
pub open spec fn claims_partial(total: int, c: Seq<(int, int)>) -> bool
    decreases c.len(),
{
    if c.len() == 0 {
        true
    } else {
        let p = c.drop_last();
        &&& claims_partial(total, p)
        &&& claims_sum(p) < total
        &&& 0 <= c.last().0 < lang_bound(p)
        &&& 1 <= c.last().1 <= total - claims_sum(p)
    }
}

/// Claims that share out the whole budget.
pub open spec fn claims_complete(total: int, c: Seq<(int, int)>) -> bool {
    claims_partial(total, c) && claims_sum(c) == total
}

/// Per language, `(op_start, trie_used)` after the claims: each claim takes
/// the topmost operations still free.
pub open spec fn op_tables(total: int, c: Seq<(int, int)>) -> Seq<(int, int)>
    decreases c.len(),
{
    if c.len() == 0 {
        Seq::new((BIGGEST_LANG + 1) as nat, |i: int| (0, 0))
    } else {
        op_tables(total, c.drop_last()).update(c.last().0, (total - claims_sum(c), c.last().1))
    }
}

/// The first `n` claims of the list that starts at `p`.
pub open spec fn claims_at(s: Seq<u8>, p: int, n: nat) -> Seq<(int, int)> {
    Seq::new(n, |i: int| (be_i32_at(s, p + 8 * i), be_i32_at(s, p + 8 * i + 4)))
}

/// Whether the claim at `p` names a language below `kb` and a count in `[1, j]`.
pub open spec fn claim_ok(s: Seq<u8>, p: int, j: int, kb: int) -> bool {
    ranged_ok(s, p, 0, (kb - 1) as i32) && ranged_ok(s, p + 4, 1, j as i32)
}

/// The failure for a claim at `p` that is not `claim_ok`.
pub open spec fn claim_err(s: Seq<u8>, p: int, j: int, kb: int) -> DecodeError {
    if !ranged_ok(s, p, 0, (kb - 1) as i32) {
        ranged_err(s, p, 0, (kb - 1) as i32)
    } else {
        ranged_err(s, p + 4, 1, j as i32)
    }
}

/// Where the claims at `p` that share out `j` operations end, the next one
/// naming a language below `kb`; `None` when a claim is out of range.
pub open spec fn claims_span(s: Seq<u8>, p: int, j: int, kb: int) -> Option<int>
    decreases j,
{
    if j <= 0 {
        if p <= s.len() { Some(p) } else { None }
    } else if !claim_ok(s, p, j, kb) {
        None
    } else {
        claims_span(s, p + 8, j - be_i32_at(s, p + 4), be_i32_at(s, p))
    }
}

/// The per-language operation index: for each language, where its operations
/// start and how many it has.
pub struct OpIndex {
    pub op_start: Vec<i32>,
    pub trie_used: Vec<i32>,
}

impl OpIndex {
    pub open spec fn wf(&self) -> bool {
        self.op_start@.len() == BIGGEST_LANG + 1 && self.trie_used@.len() == BIGGEST_LANG + 1
    }

    pub open spec fn view(&self) -> Seq<(int, int)> {
        Seq::new((BIGGEST_LANG + 1) as nat, |i: int| (self.op_start@[i] as int, self.trie_used@[i] as int))
    }
}

proof fn lemma_claims_step(s: Seq<u8>, pos: int, i: nat, total: int)
    ensures
        ({
            let c = claims_at(s, pos, i);
            let c2 = claims_at(s, pos, i + 1);
            let lang = be_i32_at(s, pos + 8 * i);
            let u = be_i32_at(s, pos + 8 * i + 4);
            &&& c2.drop_last() == c
            &&& c2.last() == (lang, u)
            &&& claims_sum(c2) == claims_sum(c) + u
            &&& lang_bound(c2) == lang
            &&& op_tables(total, c2) == op_tables(total, c).update(lang, (total - claims_sum(c2), u))
        }),
{
    let c2 = claims_at(s, pos, i + 1);
    assert(c2.drop_last() =~= claims_at(s, pos, i));
}

/// Reads the claims `(lang, count)` at `pos` that share out `total`
/// operations among languages, and builds the index from them. The claims
/// end exactly when the budget is spent.
pub fn decode_op_index(input: &[u8], pos: usize, total: i32) -> (r: Result<(OpIndex, usize), DecodeError>)
    requires
        pos <= input@.len(),
        0 <= total <= TRIE_OP_SIZE,
    ensures
        match r {
            Ok((ix, e)) => e <= input@.len() && claims_span(input@, pos as int, total as int, BIGGEST_LANG + 1) == Some(
                e as int,
            ) && exists|n: nat|
                e == pos + 8 * n && claims_complete(total as int, #[trigger] claims_at(input@, pos as int, n))
                    && ix.wf() && ix@ == op_tables(total as int, claims_at(input@, pos as int, n)),
            Err(err) => claims_span(input@, pos as int, total as int, BIGGEST_LANG + 1) is None && exists|k: nat|
                {
                    let c = #[trigger] claims_at(input@, pos as int, k);
                    &&& claims_partial(total as int, c)
                    &&& claims_sum(c) < total
                    &&& !claim_ok(input@, pos + 8 * k, total - claims_sum(c), lang_bound(c))
                    &&& err == claim_err(input@, pos + 8 * k, total - claims_sum(c), lang_bound(c))
                },
        },
{
    let mut op_start: Vec<i32> = vec![0i32; BIGGEST_LANG + 1];
    let mut trie_used: Vec<i32> = vec![0i32; BIGGEST_LANG + 1];
    let ghost s = input@;
    let mut k: usize = BIGGEST_LANG + 1;
    let mut j: i32 = total;
    let mut p: usize = pos;
    let ghost mut i: nat = 0;
    while j > 0
        invariant
            s == input@,
            pos <= p <= s.len(),
            p == pos + 8 * i,
            0 <= j <= total,
            k <= BIGGEST_LANG + 1,
            claims_partial(total as int, claims_at(s, pos as int, i)),
            j == total - claims_sum(claims_at(s, pos as int, i)),
            k == lang_bound(claims_at(s, pos as int, i)),
            op_start@.len() == BIGGEST_LANG + 1,
            trie_used@.len() == BIGGEST_LANG + 1,
            (OpIndex { op_start: op_start, trie_used: trie_used })@ == op_tables(total as int, claims_at(s, pos as int, i)),
            claims_span(s, pos as int, total as int, BIGGEST_LANG + 1) == claims_span(s, p as int, j as int, k as int),
        decreases j,
    {
        proof {
            lemma_claims_step(s, pos as int, i, total as int);
        }
        let (lang, q) = match ranged_i32(input, p, 0, k as i32 - 1) {
            Ok(x) => x,
            Err(err) => {
                assert(err == claim_err(s, pos + 8 * i, j as int, k as int));
                return Err(err);
            },
        };
        let (u, q) = match ranged_i32(input, q, 1, j) {
            Ok(x) => x,
            Err(err) => {
                assert(err == claim_err(s, pos + 8 * i, j as int, k as int));
                return Err(err);
            },
        };
        let ghost before = (OpIndex { op_start: op_start, trie_used: trie_used })@;
        k = lang as usize;
        trie_used.set(k, u);
        j = j - u;
        op_start.set(k, j);
        proof {
            let c = claims_at(s, pos as int, i);
            let c2 = claims_at(s, pos as int, i + 1);
            assert(claims_partial(total as int, c2));
            assert((OpIndex { op_start: op_start, trie_used: trie_used })@ =~= before.update(
                lang as int,
                (j as int, u as int),
            ));
            i = i + 1;
        }
        p = q;
    }
    let ix = OpIndex { op_start, trie_used };
    assert(claims_complete(total as int, claims_at(s, pos as int, i)));
    Ok((ix, p))
}

proof fn lemma_op_tables(total: int, c: Seq<(int, int)>)
    requires
        claims_partial(total, c),
    ensures
        op_tables(total, c).len() == BIGGEST_LANG + 1,
        forall|i: int| 0 <= i < c.len() ==> 0 <= #[trigger] c[i].0 <= BIGGEST_LANG,
        forall|i: int, j: int| 0 <= i < j < c.len() ==> #[trigger] c[i].0 > #[trigger] c[j].0,
        forall|i: int|
            0 <= i < c.len() ==> op_tables(total, c)[#[trigger] c[i].0] == (total - claims_sum(c.take(i + 1)), c[i].1),
        forall|lang: int|
            0 <= lang <= BIGGEST_LANG && (forall|i: int| 0 <= i < c.len() ==> #[trigger] c[i].0 != lang)
                ==> op_tables(total, c)[lang] == (0int, 0int),
    decreases c.len(),
{
    if c.len() > 0 {
        let p = c.drop_last();
        let n = c.len() - 1;
        lemma_op_tables(total, p);
        assert(c.take(n + 1) =~= c);
        assert forall|i: int| 0 <= i < n implies #[trigger] c.take(i + 1) == p.take(i + 1) by {
            assert(c.take(i + 1) =~= p.take(i + 1));
        }
        assert forall|i: int| 0 <= i < n implies #[trigger] c[i] == p[i] by {}
        if n > 0 {
            assert(lang_bound(p) == p[n - 1].0);
        }
        assert forall|i: int, j: int| 0 <= i < j < c.len() implies #[trigger] c[i].0 > #[trigger] c[j].0 by {
            if j == n && i < n - 1 {
                assert(p[i].0 > p[n - 1].0);
            }
        }
        assert forall|i: int|
            0 <= i < c.len() implies op_tables(total, c)[#[trigger] c[i].0] == (total - claims_sum(c.take(i + 1)), c[i].1) by {
            if i < n {
                assert(c[i].0 > c[n].0);
                assert(c.take(i + 1) == p.take(i + 1));
            }
        }
        assert forall|lang: int|
            0 <= lang <= BIGGEST_LANG && (forall|i: int| 0 <= i < c.len() ==> #[trigger] c[i].0 != lang)
            implies op_tables(total, c)[lang] == (0int, 0int) by {
            assert(c[n].0 != lang);
            assert forall|i: int| 0 <= i < p.len() implies #[trigger] p[i].0 != lang by {
                assert(c[i] == p[i]);
            }
        }
    }
}

/// For claims that share out all `total` operations, the index gives each
/// claimed language exactly its count, and the segments
/// `[op_start, op_start + trie_used)` tile `[0, total)` without overlap: the
/// first claim takes the top of the range, each later one ends where the one
/// before it starts, and the last starts at 0. Languages never claimed keep
/// an empty segment at 0.
pub proof fn lemma_op_segments(total: int, c: Seq<(int, int)>)
    requires
        claims_complete(total, c),
    ensures
        op_tables(total, c).len() == BIGGEST_LANG + 1,
        forall|i: int| 0 <= i < c.len() ==> op_tables(total, c)[#[trigger] c[i].0].1 == c[i].1,
        forall|i: int, j: int| 0 <= i < j < c.len() ==> #[trigger] c[i].0 != #[trigger] c[j].0,
        c.len() > 0 ==> op_tables(total, c)[c[0].0].0 + c[0].1 == total,
        forall|i: int|
            0 < i < c.len() ==> op_tables(total, c)[#[trigger] c[i].0].0 + c[i].1 == op_tables(total, c)[c[i - 1].0].0,
        c.len() > 0 ==> op_tables(total, c)[c.last().0].0 == 0,
        c.len() == 0 ==> total == 0,
        forall|lang: int|
            0 <= lang <= BIGGEST_LANG && (forall|i: int| 0 <= i < c.len() ==> #[trigger] c[i].0 != lang)
                ==> op_tables(total, c)[lang] == (0int, 0int),
{
    lemma_op_tables(total, c);
    assert forall|i: int| 0 <= i < c.len() implies #[trigger] claims_sum(c.take(i + 1)) == claims_sum(c.take(i)) + c[i].1 by {
        assert(c.take(i + 1).drop_last() =~= c.take(i));
    }
    if c.len() > 0 {
        assert(c.take(0) =~= Seq::<(int, int)>::empty());
        assert(c.take(c.len() as int) =~= c);
        assert(c.take(1).drop_last() =~= c.take(0));
        assert(claims_sum(c.take(0)) == 0);
        assert(c.last() == c[c.len() - 1]);
    }
    assert forall|i: int|
        0 < i < c.len() implies op_tables(total, c)[#[trigger] c[i].0].0 + c[i].1 == op_tables(total, c)[c[i - 1].0].0 by {
        assert(claims_sum(c.take(i + 1)) == claims_sum(c.take(i)) + c[i].1);
    }
}

/// The decoded trie block.
pub struct TrieTables {
    pub trie_max: i32,
    pub hyph_start: i32,
    /// Transition targets, `trie_max + 1` of them.
    pub trl: Vec<i32>,
    /// Output pointers, `trie_max + 1` of them.
    pub tro: Vec<i32>,
    /// Matched characters, `trie_max + 1` of them.
    pub trc: Vec<u16>,
    pub max_hyph_char: i32,
    pub trie_op_ptr: i32,
    pub hyf_distance: Vec<i16>,
    pub hyf_num: Vec<i16>,
    pub hyf_next: Vec<u16>,
    pub ops: OpIndex,
}

/// Where a trie block at `p` ends, if it is well formed.
pub open spec fn trie_span(s: Seq<u8>, p: int) -> Option<int> {
    let t = be_i32_at(s, p);
    let b = after_trie_arrays(p, t);
    let o = be_i32_at(s, b + 4);
    if p + 4 > s.len() || !ranged_ok(s, p + 4, 0, t as i32) || b + 8 > s.len() || !ranged_ok(s, b + 4, 0, TRIE_OP_SIZE)
        || b + 8 + 6 * o > s.len() {
        None
    } else {
        claims_span(s, b + 8 + 6 * o, o, BIGGEST_LANG + 1)
    }
}

/// Offset of the field that follows the three trie arrays, for a block at
/// `pos` with `t + 1` trie entries.
pub open spec fn after_trie_arrays(pos: int, t: int) -> int {
    pos + 8 + 10 * (t + 1)
}

/// Decodes the trie block at `pos`: `trie_max`, the start of the
/// hyphenation trie in `[0, trie_max]`, the three trie arrays of
/// `trie_max + 1` entries, the largest hyphenatable character (not checked),
/// the operation count in `[0, TRIE_OP_SIZE]`, the three operation arrays of
/// that length, and the per-language claims on the operations.
#[verifier::rlimit(100)]
#[verifier::spinoff_prover]
pub fn decode_trie(input: &[u8], pos: usize) -> (r: Result<(TrieTables, usize), DecodeError>)
    requires
        pos <= input@.len(),
    ensures
        match r {
            Ok((t, e)) => {
                let s = input@;
                let n = t.trie_max + 1;
                let b = after_trie_arrays(pos as int, t.trie_max as int);
                let o = t.trie_op_ptr as int;
                &&& t.trie_max == be_i32_at(s, pos as int)
                &&& e <= s.len()
                &&& trie_span(s, pos as int) == Some(e as int)
                &&& ranged_ok(s, pos + 4, 0, t.trie_max)
                &&& t.hyph_start == be_i32_at(s, pos + 4)
                &&& t.trl@.len() == n && t.tro@.len() == n && t.trc@.len() == n
                &&& forall|i: int| 0 <= i < n ==> #[trigger] t.trl@[i] == be_i32_at(s, pos + 8 + 4 * i)
                &&& forall|i: int| 0 <= i < n ==> #[trigger] t.tro@[i] == be_i32_at(s, pos + 8 + 4 * n + 4 * i)
                &&& forall|i: int| 0 <= i < n ==> #[trigger] t.trc@[i] == be_u16_at(s, pos + 8 + 8 * n + 2 * i)
                &&& t.max_hyph_char == be_i32_at(s, b)
                &&& ranged_ok(s, b + 4, 0, TRIE_OP_SIZE)
                &&& o == be_i32_at(s, b + 4)
                &&& t.hyf_distance@.len() == o && t.hyf_num@.len() == o && t.hyf_next@.len() == o
                &&& forall|i: int| 0 <= i < o ==> #[trigger] t.hyf_distance@[i] == be_i16_at(s, b + 8 + 2 * i)
                &&& forall|i: int| 0 <= i < o ==> #[trigger] t.hyf_num@[i] == be_i16_at(s, b + 8 + 2 * o + 2 * i)
                &&& forall|i: int| 0 <= i < o ==> #[trigger] t.hyf_next@[i] == be_u16_at(s, b + 8 + 4 * o + 2 * i)
                &&& exists|k: nat|
                    e == b + 8 + 6 * o + 8 * k && claims_complete(o, #[trigger] claims_at(s, b + 8 + 6 * o, k))
                        && t.ops.wf() && t.ops@ == op_tables(o, claims_at(s, b + 8 + 6 * o, k))
            },
            Err(err) => {
                &&& trie_span(input@, pos as int) is None
                &&& pos + 4 > input@.len() ==> err == truncated(input@, pos as int, 4)
                &&& pos + 4 <= input@.len() && !ranged_ok(input@, pos + 4, 0, be_i32_at(input@, pos as int) as i32)
                    ==> err == ranged_err(input@, pos + 4, 0, be_i32_at(input@, pos as int) as i32)
            },
        },
{
    let (trie_max, p) = read_i32(input, pos)?;
    let (hyph_start, p) = ranged_i32(input, p, 0, trie_max)?;
    let n: usize = trie_max as usize + 1;
    let ghost b = after_trie_arrays(pos as int, trie_max as int);
    assert(b == pos + 8 + 10 * n);
    let (trl, p) = match read_i32_array(input, p, n) {
        Ok(x) => x,
        Err(err) => {
            assert(b + 8 > input@.len());
            assert(trie_span(input@, pos as int) is None);
            return Err(err);
        },
    };
    let (tro, p) = match read_i32_array(input, p, n) {
        Ok(x) => x,
        Err(err) => {
            assert(b + 8 > input@.len());
            assert(trie_span(input@, pos as int) is None);
            return Err(err);
        },
    };
    let (trc, p) = match read_u16_array(input, p, n) {
        Ok(x) => x,
        Err(err) => {
            assert(b + 8 > input@.len());
            assert(trie_span(input@, pos as int) is None);
            return Err(err);
        },
    };
    let (max_hyph_char, p) = match read_i32(input, p) {
        Ok(x) => x,
        Err(err) => {
            assert(b + 8 > input@.len());
            assert(trie_span(input@, pos as int) is None);
            return Err(err);
        },
    };
    let (trie_op_ptr, p) = match ranged_i32(input, p, 0, TRIE_OP_SIZE) {
        Ok(x) => x,
        Err(err) => {
            assert(!ranged_ok(input@, b + 4, 0, TRIE_OP_SIZE));
            assert(trie_span(input@, pos as int) is None);
            return Err(err);
        },
    };
    let o: usize = trie_op_ptr as usize;
    let (hyf_distance, p) = match read_i16_array(input, p, o) {
        Ok(x) => x,
        Err(err) => {
            assert(b + 8 + 6 * o > input@.len());
            assert(trie_span(input@, pos as int) is None);
            return Err(err);
        },
    };
    let (hyf_num, p) = match read_i16_array(input, p, o) {
        Ok(x) => x,
        Err(err) => {
            assert(b + 8 + 6 * o > input@.len());
            assert(trie_span(input@, pos as int) is None);
            return Err(err);
        },
    };
    let (hyf_next, p) = match read_u16_array(input, p, o) {
        Ok(x) => x,
        Err(err) => {
            assert(b + 8 + 6 * o > input@.len());
            assert(trie_span(input@, pos as int) is None);
            return Err(err);
        },
    };
    let ghost start = p as int;
    let (ops, p) = match decode_op_index(input, p, trie_op_ptr) {
        Ok(x) => x,
        Err(err) => {
            assert(p == b + 8 + 6 * o);
            assert(trie_span(input@, pos as int) is None);
            return Err(err);
        },
    };
    proof {
        let k = choose|k: nat|
            p == start + 8 * k && claims_complete(trie_op_ptr as int, #[trigger] claims_at(input@, start, k))
                && ops.wf() && ops@ == op_tables(trie_op_ptr as int, claims_at(input@, start, k));
        assert(start == after_trie_arrays(pos as int, trie_max as int) + 8 + 6 * trie_op_ptr);
        assert(claims_complete(trie_op_ptr as int, claims_at(input@, start, k)));
    }
    let t = TrieTables {
        trie_max,
        hyph_start,
        trl,
        tro,
        trc,
        max_hyph_char,
        trie_op_ptr,
        hyf_distance,
        hyf_num,
        hyf_next,
        ops,
    };
    Ok((t, p))
}

proof fn lemma_claims_mono(s: Seq<u8>, p: int, j: int, kb: int)
    requires
        claims_span(s, p, j, kb) is Some,
    ensures
        p <= claims_span(s, p, j, kb).unwrap(),
    decreases j,
{
    if j > 0 {
        lemma_claims_mono(s, p + 8, j - be_i32_at(s, p + 4), be_i32_at(s, p));
    }
}

proof fn lemma_claims_frame(s: Seq<u8>, t: Seq<u8>, lim: int, p: int, j: int, kb: int)
    requires
        agree(s, t, lim),
        0 <= p,
        claims_span(s, p, j, kb) is Some,
        claims_span(s, p, j, kb).unwrap() <= lim,
    ensures
        claims_span(t, p, j, kb) == claims_span(s, p, j, kb),
    decreases j,
{
    if j > 0 {
        lemma_claims_mono(s, p + 8, j - be_i32_at(s, p + 4), be_i32_at(s, p));
        lemma_i32_frame(s, t, lim, p);
        lemma_i32_frame(s, t, lim, p + 4);
        lemma_claims_frame(s, t, lim, p + 8, j - be_i32_at(s, p + 4), be_i32_at(s, p));
    }
}

/// A trie block ends past its first eight bytes.
pub proof fn lemma_trie_mono(s: Seq<u8>, p: int)
    requires
        0 <= p,
        trie_span(s, p) is Some,
    ensures
        p + 8 <= trie_span(s, p).unwrap(),
{
    let tm = be_i32_at(s, p);
    lemma_i32_bounds(s, p);
    let b = after_trie_arrays(p, tm);
    let o = be_i32_at(s, b + 4);
    lemma_claims_mono(s, b + 8 + 6 * o, o, BIGGEST_LANG + 1);
}

/// A trie block reads the same in inputs that agree up to its end.
pub proof fn lemma_trie_frame(s: Seq<u8>, t: Seq<u8>, lim: int, p: int)
    requires
        agree(s, t, lim),
        0 <= p,
        trie_span(s, p) is Some,
        trie_span(s, p).unwrap() <= lim,
    ensures
        trie_span(t, p) == trie_span(s, p),
{
    let tm = be_i32_at(s, p);
    lemma_i32_bounds(s, p);
    let b = after_trie_arrays(p, tm);
    let o = be_i32_at(s, b + 4);
    lemma_claims_mono(s, b + 8 + 6 * o, o, BIGGEST_LANG + 1);
    lemma_i32_frame(s, t, lim, p);
    lemma_i32_frame(s, t, lim, p + 4);
    lemma_i32_frame(s, t, lim, b + 4);
    lemma_claims_frame(s, t, lim, b + 8 + 6 * o, o, BIGGEST_LANG + 1);
}

} // verus!
