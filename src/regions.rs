//! The four regions of a dump that the decoded format keeps: the string
//! pool, the memory arena, the equivalences table and the control-sequence
//! hash.
//!
//! Their layouts here are this library's own compact ones, chosen to carry
//! what the rest of the decoder needs; they are not the layouts that XeTeX
//! itself writes for these regions.
use vstd::prelude::*;
use crate::base::TOO_BIG_CHAR;
use crate::engine::EngineSettings;
use crate::reader::{
    agree, be_i32_at, be_i64_at, be_u16_at, lemma_i32_frame, lemma_uint_frame, ranged_i32, ranged_ok, read_i32, read_i64_array, read_u16, read_u16_array,
    DecodeError,
};

verus! {

/// Most strings a pool may hold.
pub const MAX_STRINGS: i32 = 500000;

/// Where the `k` strings at `p` end, each a length in `[0, 0xFFFF]` and
/// that many units; `None` when one is out of range or runs past the end.
pub open spec fn strings_span(s: Seq<u8>, p: int, k: nat) -> Option<int>
    decreases k,
{
    if k == 0 {
        if p <= s.len() { Some(p) } else { None }
    } else if !ranged_ok(s, p, 0, 0xFFFF) || p + 4 + 2 * be_i32_at(s, p) > s.len() {
        None
    } else {
        strings_span(s, p + 4 + 2 * be_i32_at(s, p), (k - 1) as nat)
    }
}

/// Offset of the `i`th string of a list that starts at `p`.
pub open spec fn string_offset(s: Seq<u8>, p: int, i: nat) -> int
    decreases i,
{
    if i == 0 {
        p
    } else {
        let q = string_offset(s, p, (i - 1) as nat);
        q + 4 + 2 * be_i32_at(s, q)
    }
}

/// Whether `v` holds the units of the string whose length field is at `p`.
pub open spec fn string_matches(s: Seq<u8>, p: int, v: Seq<u16>) -> bool {
    v.len() == be_i32_at(s, p) && forall|j: int| 0 <= j < v.len() ==> #[trigger] v[j] == be_u16_at(s, p + 4 + 2 * j)
}

/// Where a string pool at `p` ends, if it is well formed.
pub open spec fn pool_span(s: Seq<u8>, p: int) -> Option<int> {
    if !ranged_ok(s, p, 0, MAX_STRINGS) {
        None
    } else {
        strings_span(s, p + 4, be_i32_at(s, p) as nat)
    }
}

/// The string pool: strings made of UTF-16 code units. The string with id
/// `TOO_BIG_CHAR + i` is the `i`th of them; smaller ids name single
/// characters.
pub struct StringTable {
    pub strings: Vec<Vec<u16>>,
}

impl StringTable {
    pub open spec fn wf(&self) -> bool {
        self.strings@.len() <= MAX_STRINGS
    }

    /// Number of strings in the pool.
    pub fn len(&self) -> (r: usize)
        ensures
            r == self.strings@.len(),
    {
        self.strings.len()
    }

    /// The units of the string with id `sp`.
    pub fn lookup(&self, sp: i32) -> (r: &Vec<u16>)
        requires
            TOO_BIG_CHAR <= sp < TOO_BIG_CHAR + self.strings@.len(),
        ensures
            r == self.strings@[sp - TOO_BIG_CHAR],
    {
        &self.strings[(sp - TOO_BIG_CHAR) as usize]
    }

    /// Decodes the pool at `pos`: a count in `[0, MAX_STRINGS]`, then for
    /// each string a length in `[0, 0xFFFF]` and that many 16-bit units.
    pub fn parse(input: &[u8], pos: usize) -> (r: Result<(StringTable, usize), DecodeError>)
        requires
            pos <= input@.len(),
        ensures
            match r {
                Ok((t, e)) => pool_span(input@, pos as int) == Some(e as int) && t.wf()
                    && t.strings@.len() == be_i32_at(input@, pos as int) && pos < e <= input@.len()
                    && forall|i: int| 0 <= i < t.strings@.len() ==> string_matches(
                        input@,
                        string_offset(input@, pos + 4, i as nat),
                        #[trigger] t.strings@[i]@,
                    ),
                Err(_) => pool_span(input@, pos as int) is None,
            },
    {
        let (n, p) = ranged_i32(input, pos, 0, MAX_STRINGS)?;
        let mut strings: Vec<Vec<u16>> = Vec::new();
        let mut p: usize = p;
        let mut i: i32 = 0;
        while i < n
            invariant
                pos < p <= input@.len(),
                0 <= i <= n <= MAX_STRINGS,
                strings@.len() == i,
                n == be_i32_at(input@, pos as int),
                pool_span(input@, pos as int) == strings_span(input@, p as int, (n - i) as nat),
                p == string_offset(input@, pos + 4, i as nat),
                forall|k: int| 0 <= k < i ==> string_matches(
                    input@,
                    string_offset(input@, pos + 4, k as nat),
                    #[trigger] strings@[k]@,
                ),
            decreases n - i,
        {
            let (len, q) = ranged_i32(input, p, 0, 0xFFFF)?;
            let (units, q) = match read_u16_array(input, q, len as usize) {
                Ok(x) => x,
                Err(err) => {
                    return Err(err);
                },
            };
            let ghost at = p as int;
            assert(string_matches(input@, at, units@));
            strings.push(units);
            assert(strings@[i as int]@ == units@);
            p = q;
            i = i + 1;
        }
        Ok((StringTable { strings }, p))
    }
}

/// Where a memory arena at `p` ends, if it is well formed.
pub open spec fn mem_span(s: Seq<u8>, p: int, mem_top: i32) -> Option<int> {
    if ranged_ok(s, p, 0, mem_top) && ranged_ok(s, p + 4, 0, (mem_top + 1) as i32) && p + 8 + 8 * be_i32_at(
        s,
        p + 4,
    ) <= s.len() {
        Some(p + 8 + 8 * be_i32_at(s, p + 4))
    } else {
        None
    }
}

/// The memory arena: its low-memory high-water mark and its words.
pub struct Memory {
    pub lo_mem_max: i32,
    pub words: Vec<i64>,
}

impl Memory {
    /// Decodes the arena at `pos`: `lo_mem_max` in `[0, mem_top]`, a word
    /// count in `[0, mem_top + 1]`, then the words.
    pub fn parse(input: &[u8], pos: usize, settings: &EngineSettings) -> (r: Result<(Memory, usize), DecodeError>)
        requires
            pos <= input@.len(),
            settings.wf(),
        ensures
            match r {
                Ok((m, e)) => {
                    &&& ranged_ok(input@, pos as int, 0, settings.mem_top)
                    &&& m.lo_mem_max == be_i32_at(input@, pos as int)
                    &&& ranged_ok(input@, pos + 4, 0, (settings.mem_top + 1) as i32)
                    &&& m.words@.len() == be_i32_at(input@, pos + 4)
                    &&& e == pos + 8 + 8 * m.words@.len()
                    &&& e <= input@.len()
                    &&& mem_span(input@, pos as int, settings.mem_top) == Some(e as int)
                    &&& forall|i: int| 0 <= i < m.words@.len() ==> #[trigger] m.words@[i] == be_i64_at(input@, pos + 8 + 8 * i)
                },
                Err(_) => mem_span(input@, pos as int, settings.mem_top) is None,
            },
    {
        let (lo_mem_max, p) = ranged_i32(input, pos, 0, settings.mem_top)?;
        let (n, p) = ranged_i32(input, p, 0, settings.mem_top + 1)?;
        let (words, p) = read_i64_array(input, p, n as usize)?;
        Ok((Memory { lo_mem_max, words }, p))
    }
}

/// Where runs at `p` that cover `left` entries end: each run is a count in
/// `[1, left]`, a 16-bit command code and a 32-bit value.
pub open spec fn runs_span(s: Seq<u8>, p: int, left: int) -> Option<int>
    decreases left,
{
    if left <= 0 {
        if p <= s.len() { Some(p) } else { None }
    } else if !ranged_ok(s, p, 1, left as i32) || p + 10 > s.len() {
        None
    } else {
        runs_span(s, p + 10, left - be_i32_at(s, p))
    }
}

/// The entry that a run at `p` repeats: its command code and value.
pub open spec fn run_entry(s: Seq<u8>, p: int) -> EqtbEntry {
    EqtbEntry { ty: be_u16_at(s, p + 4) as u16, value: be_i32_at(s, p + 6) as i32 }
}

/// The entries that the runs at `p` covering `left` entries expand to.
pub open spec fn runs_entries(s: Seq<u8>, p: int, left: int) -> Seq<EqtbEntry>
    decreases left,
{
    if left <= 0 || !ranged_ok(s, p, 1, left as i32) || p + 10 > s.len() {
        Seq::empty()
    } else {
        Seq::new(be_i32_at(s, p) as nat, |i: int| run_entry(s, p)) + runs_entries(
            s,
            p + 10,
            left - be_i32_at(s, p),
        )
    }
}

/// One entry of the equivalences table.
#[derive(Debug, Clone, Copy, PartialEq, Eq, Structural)]
pub struct EqtbEntry {
    /// Command code.
    pub ty: u16,
    /// Meaning or value.
    pub value: i32,
}

/// The equivalences table, one entry per location, extra hash room included.
pub struct EquivalenciesTable {
    pub entries: Vec<EqtbEntry>,
}

impl EquivalenciesTable {
    /// The entry at location `i`.
    pub fn decode(&self, i: i32) -> (r: EqtbEntry)
        requires
            0 <= i < self.entries@.len(),
        ensures
            r == self.entries@[i as int],
    {
        self.entries[i as usize]
    }

    /// Decodes the table at `pos` as runs, each a repeat count, a command
    /// code and a value, until the `eqtb_size + 1 + hash_high` entries are
    /// covered.
    pub fn parse(input: &[u8], pos: usize, settings: &EngineSettings, hash_high: i32) -> (r: Result<
        (EquivalenciesTable, usize),
        DecodeError,
    >)
        requires
            pos <= input@.len(),
            settings.wf(),
            0 <= hash_high <= settings.eqtb_top - settings.eqtb_size,
        ensures
            match r {
                Ok((t, e)) => t.entries@.len() == settings.eqtb_size + 1 + hash_high && pos <= e <= input@.len()
                    && runs_span(input@, pos as int, settings.eqtb_size + 1 + hash_high) == Some(e as int)
                    && t.entries@ == runs_entries(input@, pos as int, settings.eqtb_size + 1 + hash_high),
                Err(_) => runs_span(input@, pos as int, settings.eqtb_size + 1 + hash_high) is None,
            },
    {
        let total: i32 = settings.eqtb_size + 1 + hash_high;
        let mut entries: Vec<EqtbEntry> = Vec::new();
        let mut left: i32 = total;
        let mut p: usize = pos;
        while left > 0
            invariant
                pos <= p <= input@.len(),
                0 <= left <= total,
                total == settings.eqtb_size + 1 + hash_high,
                entries@.len() == total - left,
                runs_span(input@, pos as int, total as int) == runs_span(input@, p as int, left as int),
                runs_span(input@, p as int, left as int) is Some ==> entries@ + runs_entries(input@, p as int, left as int)
                    == runs_entries(input@, pos as int, total as int),
            decreases left,
        {
            let (count, q) = ranged_i32(input, p, 1, left)?;
            let (ty, q) = read_u16(input, q)?;
            let (value, q) = read_i32(input, q)?;
            assert(q == p + 10);
            let entry = EqtbEntry { ty, value };
            assert(entry == run_entry(input@, p as int));
            let ghost before = entries@;
            let mut c: i32 = 0;
            while c < count
                invariant
                    0 <= c <= count <= left,
                    entries@.len() == total - left + c,
                    entries@ == before + Seq::new(c as nat, |i: int| entry),
                decreases count - c,
            {
                entries.push(entry);
                c = c + 1;
                assert(entries@ =~= before + Seq::new(c as nat, |i: int| entry));
            }
            proof {
                let rep = Seq::new(count as nat, |i: int| run_entry(input@, p as int));
                assert(Seq::new(count as nat, |i: int| entry) =~= rep);
                let rest = runs_entries(input@, q as int, (left - count) as int);
                assert(runs_entries(input@, p as int, left as int) == rep + rest);
                assert(before + rep + rest =~= before + (rep + rest));
            }
            left = left - count;
            p = q;
        }
        assert(entries@ + runs_entries(input@, p as int, 0) =~= entries@);
        Ok((EquivalenciesTable { entries }, p))
    }
}

/// Whether the hash entry at `p` has a location in `[hash_base, top]` and a
/// non-negative name.
pub open spec fn cs_entry_ok(s: Seq<u8>, p: int, hash_base: i32, top: i32) -> bool {
    ranged_ok(s, p, hash_base, top) && ranged_ok(s, p + 4, 0, 0x7FFF_FFFF)
}

/// Where a control-sequence hash at `p` ends, if it is well formed.
pub open spec fn cshash_span(s: Seq<u8>, p: int, st: EngineSettings, hash_high: i32) -> Option<int> {
    let n = be_i32_at(s, p);
    if ranged_ok(s, p, 0, (st.eqtb_top - st.hash_base + 1) as i32) && forall|i: int|
        0 <= i < n ==> #[trigger] cs_entry_ok(s, p + 4 + 8 * i, st.hash_base, (st.eqtb_size + hash_high) as i32) {
        Some(p + 4 + 8 * n)
    } else {
        None
    }
}

/// The control-sequence hash: `(location, name)` pairs of the defined
/// control sequences, each name a string id.
pub struct ControlSeqHash {
    pub entries: Vec<(i32, i32)>,
}

impl ControlSeqHash {
    /// Decodes the hash at `pos`: a count in `[0, eqtb_top - hash_base + 1]`,
    /// then for each entry a location in `[hash_base, eqtb_size + hash_high]`
    /// and a non-negative string id.
    pub fn parse(input: &[u8], pos: usize, settings: &EngineSettings, hash_high: i32) -> (r: Result<
        (ControlSeqHash, usize),
        DecodeError,
    >)
        requires
            pos <= input@.len(),
            settings.wf(),
            0 <= hash_high <= settings.eqtb_top - settings.eqtb_size,
        ensures
            match r {
                Ok((h, e)) => {
                    &&& ranged_ok(input@, pos as int, 0, (settings.eqtb_top - settings.hash_base + 1) as i32)
                    &&& h.entries@.len() == be_i32_at(input@, pos as int)
                    &&& e == pos + 4 + 8 * h.entries@.len()
                    &&& e <= input@.len()
                    &&& cshash_span(input@, pos as int, *settings, hash_high) == Some(e as int)
                    &&& forall|i: int| 0 <= i < h.entries@.len() ==> #[trigger] h.entries@[i] == (
                        be_i32_at(input@, pos + 4 + 8 * i) as i32,
                        be_i32_at(input@, pos + 8 + 8 * i) as i32,
                    )
                    &&& forall|i: int| 0 <= i < h.entries@.len() ==> {
                        &&& settings.hash_base <= #[trigger] h.entries@[i].0 <= settings.eqtb_size + hash_high
                        &&& 0 <= h.entries@[i].1
                    }
                },
                Err(_) => cshash_span(input@, pos as int, *settings, hash_high) is None,
            },
    {
        let (n, p) = ranged_i32(input, pos, 0, settings.eqtb_top - settings.hash_base + 1)?;
        let mut entries: Vec<(i32, i32)> = Vec::new();
        let mut p: usize = p;
        let mut i: i32 = 0;
        while i < n
            invariant
                pos <= p <= input@.len(),
                p == pos + 4 + 8 * i,
                0 <= i <= n,
                settings.wf(),
                0 <= hash_high <= settings.eqtb_top - settings.eqtb_size,
                entries@.len() == i,
                forall|k: int| 0 <= k < i ==> {
                    &&& settings.hash_base <= #[trigger] entries@[k].0 <= settings.eqtb_size + hash_high
                    &&& 0 <= entries@[k].1
                },
                n == be_i32_at(input@, pos as int),
                forall|k: int| 0 <= k < i ==> #[trigger] entries@[k] == (
                    be_i32_at(input@, pos + 4 + 8 * k) as i32,
                    be_i32_at(input@, pos + 8 + 8 * k) as i32,
                ),
                forall|k: int|
                    0 <= k < i ==> #[trigger] cs_entry_ok(input@, pos + 4 + 8 * k, settings.hash_base, (settings.eqtb_size + hash_high) as i32),
            decreases n - i,
        {
            let (loc, q) = match ranged_i32(input, p, settings.hash_base, settings.eqtb_size + hash_high) {
                Ok(x) => x,
                Err(err) => {
                    assert(!cs_entry_ok(input@, pos + 4 + 8 * i, settings.hash_base, (settings.eqtb_size + hash_high) as i32));
                    return Err(err);
                },
            };
            let (text, q) = match ranged_i32(input, q, 0, 0x7FFF_FFFF) {
                Ok(x) => x,
                Err(err) => {
                    assert(!cs_entry_ok(input@, pos + 4 + 8 * i, settings.hash_base, (settings.eqtb_size + hash_high) as i32));
                    return Err(err);
                },
            };
            entries.push((loc, text));
            p = q;
            i = i + 1;
        }
        Ok((ControlSeqHash { entries }, p))
    }
}

proof fn lemma_strings_frame(s: Seq<u8>, t: Seq<u8>, n: int, p: int, k: nat)
    requires
        agree(s, t, n),
        0 <= p,
        strings_span(s, p, k) is Some,
        strings_span(s, p, k).unwrap() <= n,
    ensures
        strings_span(t, p, k) == strings_span(s, p, k),
    decreases k,
{
    if k > 0 {
        assert(p + 4 <= n) by {
            lemma_strings_mono(s, p + 4 + 2 * be_i32_at(s, p), (k - 1) as nat);
        }
        lemma_i32_frame(s, t, n, p);
        lemma_strings_frame(s, t, n, p + 4 + 2 * be_i32_at(s, p), (k - 1) as nat);
    }
}

/// A string list ends no earlier than it starts.
pub proof fn lemma_strings_mono(s: Seq<u8>, p: int, k: nat)
    requires
        strings_span(s, p, k) is Some,
    ensures
        p <= strings_span(s, p, k).unwrap(),
    decreases k,
{
    if k > 0 {
        lemma_strings_mono(s, p + 4 + 2 * be_i32_at(s, p), (k - 1) as nat);
    }
}

/// A string pool reads the same in inputs that agree up to its end.
pub proof fn lemma_pool_frame(s: Seq<u8>, t: Seq<u8>, n: int, p: int)
    requires
        agree(s, t, n),
        0 <= p,
        pool_span(s, p) is Some,
        pool_span(s, p).unwrap() <= n,
    ensures
        pool_span(t, p) == pool_span(s, p),
        be_i32_at(t, p) == be_i32_at(s, p),
{
    lemma_strings_mono(s, p + 4, be_i32_at(s, p) as nat);
    lemma_i32_frame(s, t, n, p);
    lemma_strings_frame(s, t, n, p + 4, be_i32_at(s, p) as nat);
}

/// A memory arena reads the same in inputs that agree up to its end.
pub proof fn lemma_mem_frame(s: Seq<u8>, t: Seq<u8>, n: int, p: int, mem_top: i32)
    requires
        agree(s, t, n),
        0 <= p,
        0 <= mem_top,
        mem_span(s, p, mem_top) is Some,
        mem_span(s, p, mem_top).unwrap() <= n,
    ensures
        mem_span(t, p, mem_top) == mem_span(s, p, mem_top),
        be_i32_at(t, p) == be_i32_at(s, p),
{
    lemma_i32_frame(s, t, n, p);
    lemma_i32_frame(s, t, n, p + 4);
}

/// Equivalence runs end no earlier than they start.
pub proof fn lemma_runs_mono(s: Seq<u8>, p: int, left: int)
    requires
        runs_span(s, p, left) is Some,
    ensures
        p <= runs_span(s, p, left).unwrap(),
    decreases left,
{
    if left > 0 {
        lemma_runs_mono(s, p + 10, left - be_i32_at(s, p));
    }
}

/// Equivalence runs read the same in inputs that agree up to their end.
pub proof fn lemma_runs_frame(s: Seq<u8>, t: Seq<u8>, n: int, p: int, left: int)
    requires
        agree(s, t, n),
        0 <= p,
        runs_span(s, p, left) is Some,
        runs_span(s, p, left).unwrap() <= n,
    ensures
        runs_span(t, p, left) == runs_span(s, p, left),
    decreases left,
{
    if left > 0 {
        lemma_runs_mono(s, p + 10, left - be_i32_at(s, p));
        lemma_i32_frame(s, t, n, p);
        lemma_runs_frame(s, t, n, p + 10, left - be_i32_at(s, p));
    }
}

/// A control-sequence hash reads the same in inputs that agree up to its end.
pub proof fn lemma_cshash_frame(s: Seq<u8>, t: Seq<u8>, n: int, p: int, st: EngineSettings, hash_high: i32)
    requires
        agree(s, t, n),
        0 <= p,
        cshash_span(s, p, st, hash_high) is Some,
        cshash_span(s, p, st, hash_high).unwrap() <= n,
    ensures
        cshash_span(t, p, st, hash_high) == cshash_span(s, p, st, hash_high),
{
    lemma_i32_frame(s, t, n, p);
    let m = be_i32_at(s, p);
    let top = (st.eqtb_size + hash_high) as i32;
    assert forall|i: int| 0 <= i < m implies #[trigger] cs_entry_ok(t, p + 4 + 8 * i, st.hash_base, top) by {
        assert(cs_entry_ok(s, p + 4 + 8 * i, st.hash_base, top));
        lemma_i32_frame(s, t, n, p + 4 + 8 * i);
        lemma_i32_frame(s, t, n, p + 8 + 8 * i);
    }
}

/// The entries of equivalence runs read the same in inputs that agree up to
/// the runs' end.
pub proof fn lemma_runs_entries_frame(s: Seq<u8>, t: Seq<u8>, n: int, p: int, left: int)
    requires
        agree(s, t, n),
        0 <= p,
        runs_span(s, p, left) is Some,
        runs_span(s, p, left).unwrap() <= n,
    ensures
        runs_entries(t, p, left) == runs_entries(s, p, left),
    decreases left,
{
    if left > 0 {
        lemma_runs_mono(s, p + 10, left - be_i32_at(s, p));
        lemma_i32_frame(s, t, n, p);
        lemma_i32_frame(s, t, n, p + 6);
        lemma_uint_frame(s, t, p + 4, 2);
        lemma_runs_entries_frame(s, t, n, p + 10, left - be_i32_at(s, p));
    }
}

/// A control-sequence hash ends past its count.
pub proof fn lemma_cshash_mono(s: Seq<u8>, p: int, st: EngineSettings, hash_high: i32)
    requires
        cshash_span(s, p, st, hash_high) is Some,
    ensures
        p + 4 <= cshash_span(s, p, st, hash_high).unwrap(),
{
}

} // verus!
