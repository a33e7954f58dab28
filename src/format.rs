//! The whole dump: header, retained regions, validated blocks and footer.
use vstd::prelude::*;
use crate::base::{MAX_USV, TOO_BIG_CHAR};
use crate::engine::{settings_for, CatCode, Engine, EngineSettings};
use crate::fonts::{decode_fonts, font_span, lemma_font_frame, lemma_font_mono};
use crate::hyph::{decode_hyph_exceptions, hyph_span, lemma_hyph_frame, lemma_hyph_mono};
use crate::reader::{
    agree, be_i32_at, be_i64_at, lemma_i32_frame, lemma_uint_frame, expect_i32, ranged_err, ranged_i32, ranged_ok, read_i32, read_i64_array, truncated,
    DecodeError,
};
use crate::regions::{
    cshash_span, lemma_cshash_frame, lemma_cshash_mono, lemma_mem_frame, lemma_pool_frame, lemma_runs_frame, lemma_runs_mono,
    lemma_runs_entries_frame, lemma_strings_mono, mem_span, pool_span, runs_entries, runs_span, string_matches,
    string_offset, ControlSeqHash, EqtbEntry, EquivalenciesTable, Memory,
    StringTable,
};
use crate::trie::{decode_trie, lemma_trie_frame, lemma_trie_mono, trie_span};

verus! {

/// First field of every dump: ASCII "TTNC".
pub const HEADER_MAGIC: i32 = 0x5454_4E43;

/// Last field of every dump.
pub const FOOTER_MAGIC: i32 = 0x0000_029A;

/// Saved engine state, decoded into memory.
pub struct Format {
    pub engine: Engine,
    pub strings: StringTable,
    pub mem: Memory,
    pub eqtb: EquivalenciesTable,
    pub cshash: ControlSeqHash,
}

/// The failure for an exact-match field at `p` that should hold `v`.
pub open spec fn mismatch_err(s: Seq<u8>, p: int, v: i32) -> DecodeError {
    if p + 4 > s.len() {
        truncated(s, p, 4)
    } else {
        DecodeError::Mismatch { offset: p as usize, expected: v, found: be_i32_at(s, p) as i32 }
    }
}

/// Whether the field at `p` is present and holds `v`.
pub open spec fn field_is(s: Seq<u8>, p: int, v: i32) -> bool {
    p + 4 <= s.len() && be_i32_at(s, p) == v
}

/// What the fixed-offset header decides: `None` when it is sound, else the
/// failure it gives. Its fields are the magic, the serial number, `hash_high`
/// (bound by the extra hash room of the version), the memory top, the
/// equivalences size, the hash prime and the hyphenation prime (unchecked).
pub open spec fn header_outcome(s: Seq<u8>) -> Option<DecodeError> {
    if !field_is(s, 0, HEADER_MAGIC) {
        Some(mismatch_err(s, 0, HEADER_MAGIC))
    } else if s.len() < 8 {
        Some(truncated(s, 4, 4))
    } else if settings_for(be_i32_at(s, 4)).is_none() {
        Some(DecodeError::UnknownVersion { serial: be_i32_at(s, 4) as i32 })
    } else {
        let st = settings_for(be_i32_at(s, 4)).unwrap();
        let room = (st.eqtb_top - st.eqtb_size) as i32;
        if !ranged_ok(s, 8, 0, room) {
            Some(ranged_err(s, 8, 0, room))
        } else if !field_is(s, 12, st.mem_top) {
            Some(mismatch_err(s, 12, st.mem_top))
        } else if !field_is(s, 16, st.eqtb_size) {
            Some(mismatch_err(s, 16, st.eqtb_size))
        } else if !field_is(s, 20, st.hash_prime) {
            Some(mismatch_err(s, 20, st.hash_prime))
        } else if s.len() < 28 {
            Some(truncated(s, 24, 4))
        } else {
            None
        }
    }
}

/// Where the font, hyphenation and trie blocks at `p` and the footer after
/// them end, if all are well formed.
pub open spec fn blocks_span(s: Seq<u8>, p: int, max_fonts: i32, lo_mem_max: i32, max_word: i32) -> Option<int> {
    match font_span(s, p, max_fonts, lo_mem_max) {
        None => None,
        Some(q) => match hyph_span(s, q, max_word) {
            None => None,
            Some(r) => match trie_span(s, r) {
                None => None,
                Some(t) => if field_is(s, t, FOOTER_MAGIC) {
                    Some(t + 4)
                } else {
                    None
                },
            },
        },
    }
}

/// Where the regions and blocks after a sound header end, for the given
/// constants and `hash_high`, if all are well formed.
pub open spec fn body_span(s: Seq<u8>, st: EngineSettings, hash_high: int) -> Option<int> {
    match pool_span(s, 28) {
        None => None,
        Some(q1) => match mem_span(s, q1, st.mem_top) {
            None => None,
            Some(q2) => match runs_span(s, q2, st.eqtb_size + 1 + hash_high) {
                None => None,
                Some(q3) => if !catcodes_ok(runs_entries(s, q2, st.eqtb_size + 1 + hash_high), st) {
                    None
                } else {
                    tail_span(s, q3, st, hash_high, be_i32_at(s, q1) as i32, (be_i32_at(s, 28) + TOO_BIG_CHAR - 1) as i32)
                },
            },
        },
    }
}

/// Where the part of a dump from the two legacy locations at `q3` to the
/// footer ends, if it is well formed.
pub open spec fn tail_span(s: Seq<u8>, q3: int, st: EngineSettings, hash_high: int, lo: i32, mw: i32) -> Option<int> {
    if !ranged_ok(s, q3, st.hash_base, st.eqtb_top) || !ranged_ok(s, q3 + 4, st.hash_base, st.eqtb_top) || q3 + 8 + 8 * (
    st.prim_size + 1) > s.len() {
        None
    } else {
        match cshash_span(s, q3 + 8 + 8 * (st.prim_size + 1), st, hash_high as i32) {
            None => None,
            Some(q5) => blocks_span(s, q5, st.max_fonts, lo, mw),
        }
    }
}

/// Where the trie block ends, after the font and hyphenation blocks at `p`:
/// the offset of the footer, if those blocks are well formed.
pub open spec fn pre_footer(s: Seq<u8>, p: int, max_fonts: i32, lo_mem_max: i32, max_word: i32) -> Option<int> {
    match font_span(s, p, max_fonts, lo_mem_max) {
        None => None,
        Some(q) => match hyph_span(s, q, max_word) {
            None => None,
            Some(r) => trie_span(s, r),
        },
    }
}

/// Offset of the footer of a dump whose every part before it is well
/// formed.
pub open spec fn footer_offset(s: Seq<u8>) -> Option<int> {
    if header_outcome(s) is Some {
        None
    } else {
        let st = settings_for(be_i32_at(s, 4)).unwrap();
        let hh = be_i32_at(s, 8);
        match pool_span(s, 28) {
            None => None,
            Some(q1) => match mem_span(s, q1, st.mem_top) {
                None => None,
                Some(q2) => match runs_span(s, q2, st.eqtb_size + 1 + hh) {
                    None => None,
                    Some(q3) => if !catcodes_ok(runs_entries(s, q2, st.eqtb_size + 1 + hh), st) || !ranged_ok(
                        s,
                        q3,
                        st.hash_base,
                        st.eqtb_top,
                    ) || !ranged_ok(s, q3 + 4, st.hash_base, st.eqtb_top) || q3 + 8 + 8 * (st.prim_size + 1) > s.len() {
                        None
                    } else {
                        match cshash_span(s, q3 + 8 + 8 * (st.prim_size + 1), st, hh as i32) {
                            None => None,
                            Some(q5) => pre_footer(
                                s,
                                q5,
                                st.max_fonts,
                                be_i32_at(s, q1) as i32,
                                (be_i32_at(s, 28) + TOO_BIG_CHAR - 1) as i32,
                            ),
                        }
                    },
                },
            },
        }
    }
}

/// Where a whole dump ends (its footer), if it is well formed.
pub open spec fn dump_span(s: Seq<u8>) -> Option<int> {
    if header_outcome(s) is Some {
        None
    } else {
        body_span(s, settings_for(be_i32_at(s, 4)).unwrap(), be_i32_at(s, 8))
    }
}

/// Whether some run of some category holds `c`.
pub open spec fn covered(b: Seq<Vec<(i32, i32)>>, c: int) -> bool {
    exists|k: int, j: int| 0 <= k < b.len() && 0 <= j < b[k]@.len() && #[trigger] b[k]@[j].0 <= c <= b[k]@[j].1
}

proof fn lemma_covered_kept(before: Seq<Vec<(i32, i32)>>, after: Seq<Vec<(i32, i32)>>, k: int)
    requires
        before.len() == after.len(),
        0 <= k < before.len(),
        forall|k2: int| 0 <= k2 < before.len() && k2 != k ==> after[k2] == before[k2],
        after[k]@.len() == before[k]@.len() + 1,
        forall|j: int| 0 <= j < before[k]@.len() ==> after[k]@[j] == before[k]@[j],
    ensures
        forall|c: int| covered(before, c) ==> #[trigger] covered(after, c),
        forall|c: int| after[k]@.last().0 <= c <= after[k]@.last().1 ==> #[trigger] covered(after, c),
{
    assert forall|c: int| covered(before, c) implies #[trigger] covered(after, c) by {
        let (k2, j) = choose|k2: int, j: int|
            0 <= k2 < before.len() && 0 <= j < before[k2]@.len() && #[trigger] before[k2]@[j].0 <= c <= before[k2]@[j].1;
        assert(after[k2]@[j] == before[k2]@[j]);
    }
    assert forall|c: int| after[k]@.last().0 <= c <= after[k]@.last().1 implies #[trigger] covered(after, c) by {
        let j = after[k]@.len() - 1;
        assert(after[k]@[j].0 <= c <= after[k]@[j].1);
    }
}

/// Whether every code point's category-code entry holds a code in `[0, 15]`.
pub open spec fn catcodes_ok(e: Seq<EqtbEntry>, st: EngineSettings) -> bool {
    forall|c: int| 0 <= c < MAX_USV ==> 0 <= #[trigger] e[st.cat_code_base + c].value <= 15
}

/// Offset of the equivalences table of a dump whose regions before it are
/// well formed.
pub open spec fn eqtb_at(s: Seq<u8>) -> int {
    mem_span(s, pool_span(s, 28).unwrap(), settings_for(be_i32_at(s, 4)).unwrap().mem_top).unwrap()
}

/// Offset of the control-sequence hash of a dump whose regions before it
/// are well formed.
pub open spec fn cshash_at(s: Seq<u8>) -> int {
    legacy_locs_at(s).unwrap() + 8 + 8 * (settings_for(be_i32_at(s, 4)).unwrap().prim_size + 1)
}

/// Rejects a table whose category-code entries are not all in `[0, 15]`,
/// reporting the first bad one against the table's offset.
fn check_catcodes(eqtb: &EquivalenciesTable, st: &EngineSettings, offset: usize) -> (r: Result<(), DecodeError>)
    requires
        st.wf(),
        eqtb.entries@.len() >= st.eqtb_size + 1,
    ensures
        r is Ok <==> catcodes_ok(eqtb.entries@, *st),
{
    let mut c: i32 = 0;
    while c < MAX_USV
        invariant
            st.wf(),
            eqtb.entries@.len() >= st.eqtb_size + 1,
            0 <= c <= MAX_USV,
            forall|d: int| 0 <= d < c ==> 0 <= #[trigger] eqtb.entries@[st.cat_code_base + d].value <= 15,
        decreases MAX_USV - c,
    {
        let v = eqtb.decode(st.cat_code_base + c).value;
        if v < 0 || v > 15 {
            return Err(DecodeError::OutOfRange { offset, low: 0, high: 15, found: v });
        }
        c = c + 1;
    }
    Ok(())
}

/// Decodes the fixed-offset header: the engine it names and `hash_high`.
fn parse_header(input: &[u8]) -> (r: Result<(Engine, i32), DecodeError>)
    ensures
        match r {
            Ok((engine, hash_high)) => {
                &&& header_outcome(input@) is None
                &&& settings_for(be_i32_at(input@, 4)) == Some(engine.settings)
                &&& engine.version == be_i32_at(input@, 4)
                &&& engine.settings.wf()
                &&& hash_high == be_i32_at(input@, 8)
                &&& 0 <= hash_high <= engine.settings.eqtb_top - engine.settings.eqtb_size
                &&& input@.len() >= 28
            },
            Err(err) => header_outcome(input@) == Some(err),
        },
{
    let p = expect_i32(input, 0, HEADER_MAGIC)?;
    let (serial, p) = read_i32(input, p)?;
    let engine = match Engine::new_for_version(serial) {
        Some(e) => e,
        None => {
            return Err(DecodeError::UnknownVersion { serial });
        },
    };
    let st = engine.settings;
    let (hash_high, p) = ranged_i32(input, p, 0, st.eqtb_top - st.eqtb_size)?;
    let p = expect_i32(input, p, st.mem_top)?;
    let p = expect_i32(input, p, st.eqtb_size)?;
    let p = expect_i32(input, p, st.hash_prime)?;
    let (_hyph_prime, _p) = read_i32(input, p)?;
    Ok((engine, hash_high))
}

/// Runs the font, hyphenation and trie decoders from `pos` and checks the
/// footer magic after them; gives the offset past the footer.
fn check_blocks(input: &[u8], pos: usize, max_fonts: i32, lo_mem_max: i32, max_word: i32) -> (r: Result<
    usize,
    DecodeError,
>)
    requires
        pos <= input@.len(),
        0 <= max_fonts,
    ensures
        match r {
            Ok(e) => pos + 4 <= e && field_is(input@, e - 4, FOOTER_MAGIC)
                && blocks_span(input@, pos as int, max_fonts, lo_mem_max, max_word) == Some(e as int),
            Err(err) => {
                &&& blocks_span(input@, pos as int, max_fonts, lo_mem_max, max_word) is None
                &&& pre_footer(input@, pos as int, max_fonts, lo_mem_max, max_word) is Some && !field_is(
                    input@,
                    pre_footer(input@, pos as int, max_fonts, lo_mem_max, max_word).unwrap(),
                    FOOTER_MAGIC,
                ) ==> err == mismatch_err(
                    input@,
                    pre_footer(input@, pos as int, max_fonts, lo_mem_max, max_word).unwrap(),
                    FOOTER_MAGIC,
                )
            },
        },
{
    let (_fonts, p) = decode_fonts(input, pos, max_fonts, lo_mem_max)?;
    let (_hyph, p) = decode_hyph_exceptions(input, p, max_word)?;
    let (_trie, p) = decode_trie(input, p)?;
    let e = expect_i32(input, p, FOOTER_MAGIC)?;
    Ok(e)
}

impl Format {
    /// The decoded state is sound: known constants, an equivalences table
    /// that holds every entry they locate, and a valid category code for
    /// every code point.
    pub open spec fn wf(&self) -> bool {
        &&& self.engine.settings.wf()
        &&& self.eqtb.entries@.len() >= self.engine.settings.eqtb_size + 1
        &&& self.strings.wf()
        &&& catcodes_ok(self.eqtb.entries@, self.engine.settings)
    }

    /// Decodes a whole dump. The header decides as `header_outcome` says;
    /// after it come the string pool, the memory arena, the equivalences
    /// table (whose category-code entries must all lie in `[0, 15]`; a bad
    /// one is reported against the table's offset), two locations in `[hash_base, eqtb_top]`, `prim_size + 1`
    /// primitive words, the control-sequence hash, the font block, the
    /// hyphenation exceptions, the trie and the footer magic. Bytes after the
    /// footer are not looked at.
    pub fn parse(input: &[u8]) -> (r: Result<Format, DecodeError>)
        ensures
            header_outcome(input@) is Some ==> r == Err::<Format, DecodeError>(header_outcome(input@).unwrap()),
            r is Ok ==> header_outcome(input@) is None,
            r is Ok <==> dump_span(input@) is Some,
            footer_offset(input@) is Some && !field_is(input@, footer_offset(input@).unwrap(), FOOTER_MAGIC) ==> r
                == Err::<Format, DecodeError>(mismatch_err(input@, footer_offset(input@).unwrap(), FOOTER_MAGIC)),
            match r {
                Ok(f) => {
                    &&& f.wf()
                    &&& settings_for(be_i32_at(input@, 4)) == Some(f.engine.settings)
                    &&& f.engine.version == be_i32_at(input@, 4)
                    &&& f.eqtb.entries@.len() == f.engine.settings.eqtb_size + 1 + be_i32_at(input@, 8)
                    &&& field_is(input@, dump_span(input@).unwrap() - 4, FOOTER_MAGIC)
                    &&& f.eqtb.entries@ == runs_entries(
                        input@,
                        eqtb_at(input@),
                        f.engine.settings.eqtb_size + 1 + be_i32_at(input@, 8),
                    )
                    &&& f.strings.strings@.len() == be_i32_at(input@, 28)
                    &&& forall|i: int| 0 <= i < f.strings.strings@.len() ==> string_matches(
                        input@,
                        string_offset(input@, 32, i as nat),
                        #[trigger] f.strings.strings@[i]@,
                    )
                    &&& f.cshash.entries@.len() == be_i32_at(input@, cshash_at(input@))
                    &&& forall|i: int| 0 <= i < f.cshash.entries@.len() ==> #[trigger] f.cshash.entries@[i] == (
                        be_i32_at(input@, cshash_at(input@) + 4 + 8 * i) as i32,
                        be_i32_at(input@, cshash_at(input@) + 8 + 8 * i) as i32,
                    )
                    &&& f.mem.lo_mem_max == be_i32_at(input@, pool_span(input@, 28).unwrap())
                    &&& f.mem.words@.len() == be_i32_at(input@, pool_span(input@, 28).unwrap() + 4)
                    &&& forall|i: int| 0 <= i < f.mem.words@.len() ==> #[trigger] f.mem.words@[i] == be_i64_at(
                        input@,
                        pool_span(input@, 28).unwrap() + 8 + 8 * i,
                    )
                },
                Err(_) => true,
            },
    {
        let (engine, hash_high) = parse_header(input)?;
        let st = engine.settings;
        let p: usize = 28;
        let (strings, p) = StringTable::parse(input, p)?;
        let (mem, p) = Memory::parse(input, p, &st)?;
        let eqtb_pos = p;
        let (eqtb, p) = EquivalenciesTable::parse(input, p, &st, hash_high)?;
        check_catcodes(&eqtb, &st, eqtb_pos)?;
        let (_par_loc, p) = ranged_i32(input, p, st.hash_base, st.eqtb_top)?;
        let (_write_loc, p) = ranged_i32(input, p, st.hash_base, st.eqtb_top)?;
        let (_prims, p) = read_i64_array(input, p, st.prim_size as usize + 1)?;
        let (cshash, p) = ControlSeqHash::parse(input, p, &st, hash_high)?;
        let max_word: i32 = strings.len() as i32 + TOO_BIG_CHAR - 1;
        let end = check_blocks(input, p, st.max_fonts, mem.lo_mem_max, max_word)?;
        assert(field_is(input@, end - 4, FOOTER_MAGIC));
        Ok(Format { engine, strings, mem, eqtb, cshash })
    }

    /// The entry of the active character `c`.
    pub fn eqtb_active(&self, c: i32) -> (r: EqtbEntry)
        requires
            self.wf(),
            0 <= c < MAX_USV,
        ensures
            r == self.eqtb.entries@[self.engine.settings.active_base + c],
    {
        self.eqtb.decode(self.engine.settings.active_base + c)
    }

    /// The category code of `c`, if the table holds a valid one.
    pub fn eqtb_catcode(&self, c: i32) -> (r: Option<CatCode>)
        requires
            self.wf(),
            0 <= c < MAX_USV,
        ensures
            r is Some,
            r.unwrap().code() == self.eqtb.entries@[self.engine.settings.cat_code_base + c].value,
    {
        CatCode::from_i32(self.eqtb.decode(self.engine.settings.cat_code_base + c).value)
    }

    /// The value that `eqtb_catcode` reads for `c`.
    pub open spec fn catcode_value(&self, c: int) -> int {
        self.eqtb.entries@[self.engine.settings.cat_code_base + c].value as int
    }

    /// The active characters that hold a definition, in increasing order,
    /// each with its entry.
    pub fn defined_actives(&self) -> (r: Vec<(i32, EqtbEntry)>)
        requires
            self.wf(),
        ensures
            forall|k: int| 0 <= k < r@.len() ==> {
                &&& 0 <= #[trigger] r@[k].0 < MAX_USV
                &&& r@[k].1 == self.eqtb.entries@[self.engine.settings.active_base + r@[k].0]
                &&& r@[k].1.ty != self.engine.settings.undefined_cs_command
            },
            forall|k: int, l: int| 0 <= k < l < r@.len() ==> #[trigger] r@[k].0 < #[trigger] r@[l].0,
            forall|c: int|
                0 <= c < MAX_USV && #[trigger] self.eqtb.entries@[self.engine.settings.active_base + c].ty
                    != self.engine.settings.undefined_cs_command ==> exists|k: int| 0 <= k < r@.len() && #[trigger] r@[k].0 == c,
    {
        let mut r: Vec<(i32, EqtbEntry)> = Vec::new();
        let mut chr: i32 = 0;
        while chr < MAX_USV
            invariant
                self.wf(),
                0 <= chr <= MAX_USV,
                forall|k: int| 0 <= k < r@.len() ==> {
                    &&& 0 <= #[trigger] r@[k].0 < chr
                    &&& r@[k].1 == self.eqtb.entries@[self.engine.settings.active_base + r@[k].0]
                    &&& r@[k].1.ty != self.engine.settings.undefined_cs_command
                },
                forall|k: int, l: int| 0 <= k < l < r@.len() ==> #[trigger] r@[k].0 < #[trigger] r@[l].0,
                forall|c: int|
                    0 <= c < chr && #[trigger] self.eqtb.entries@[self.engine.settings.active_base + c].ty
                        != self.engine.settings.undefined_cs_command ==> exists|k: int| 0 <= k < r@.len() && #[trigger] r@[k].0 == c,
            decreases MAX_USV - chr,
        {
            let entry = self.eqtb_active(chr);
            if entry.ty != self.engine.settings.undefined_cs_command {
                let ghost before = r@;
                r.push((chr, entry));
                proof {
                    assert forall|c: int|
                        0 <= c < chr + 1 && #[trigger] self.eqtb.entries@[self.engine.settings.active_base + c].ty
                            != self.engine.settings.undefined_cs_command implies exists|k: int|
                            0 <= k < r@.len() && #[trigger] r@[k].0 == c by {
                        if c == chr {
                            assert(r@[before.len() as int].0 == c);
                        } else {
                            let k = choose|k: int| 0 <= k < before.len() && #[trigger] before[k].0 == c;
                            assert(r@[k].0 == c);
                        }
                    }
                }
            }
            chr = chr + 1;
        }
        r
    }

    /// Groups the code points into maximal runs of one category code:
    /// `r[k]` lists the runs `(first, last)` of code `k`, in increasing order.
    /// Together the runs cover every code point below `MAX_USV`.
    pub fn catcode_runs(&self) -> (r: Vec<Vec<(i32, i32)>>)
        requires
            self.wf(),
        ensures
            r@.len() == 16,
            forall|k: int, j: int| 0 <= k < 16 && 0 <= j < r@[k]@.len() ==> {
                let run = #[trigger] r@[k]@[j];
                &&& 0 <= run.0 <= run.1 < MAX_USV
                &&& forall|c: int| run.0 <= c <= run.1 ==> #[trigger] self.catcode_value(c) == k
                &&& run.0 == 0 || self.catcode_value(run.0 - 1) != k
                &&& run.1 == MAX_USV - 1 || self.catcode_value(run.1 + 1) != k
            },
            forall|k: int, j: int| 0 <= k < 16 && 0 <= j && j + 1 < r@[k]@.len() ==> #[trigger] r@[k]@[j].1 < r@[k]@[j + 1].0,
            forall|c: int| 0 <= c < MAX_USV ==> #[trigger] covered(r@, c),
    {
        let mut blocks: Vec<Vec<(i32, i32)>> = Vec::new();
        let mut i: usize = 0;
        while i < 16
            invariant
                0 <= i <= 16,
                blocks@.len() == i,
                forall|k: int| 0 <= k < i ==> (#[trigger] blocks@[k])@.len() == 0,
            decreases 16 - i,
        {
            blocks.push(Vec::new());
            i = i + 1;
        }
        let mut start: i32 = 0;
        let mut cur: usize = cat_index(self.eqtb_catcode(0).unwrap());
        let mut chr: i32 = 1;
        while chr < MAX_USV
            invariant
                self.wf(),
                1 <= chr <= MAX_USV,
                0 <= start < chr,
                cur < 16,
                blocks@.len() == 16,
                forall|c: int| 0 <= c < start ==> #[trigger] covered(blocks@, c),
                forall|c: int| start <= c < chr ==> #[trigger] self.catcode_value(c) == cur,
                start == 0 || self.catcode_value(start - 1) != cur,
                forall|k: int, j: int| 0 <= k < 16 && 0 <= j < blocks@[k]@.len() ==> {
                    let run = #[trigger] blocks@[k]@[j];
                    &&& 0 <= run.0 <= run.1 < start
                    &&& forall|c: int| run.0 <= c <= run.1 ==> #[trigger] self.catcode_value(c) == k
                    &&& run.0 == 0 || self.catcode_value(run.0 - 1) != k
                    &&& self.catcode_value(run.1 + 1) != k
                },
                forall|k: int, j: int|
                    0 <= k < 16 && 0 <= j && j + 1 < blocks@[k]@.len() ==> #[trigger] blocks@[k]@[j].1 < blocks@[k]@[j + 1].0,
            decreases MAX_USV - chr,
        {
            let cat = cat_index(self.eqtb_catcode(chr).unwrap());
            if cat != cur {
                let ghost before = blocks@;
                let mut list = blocks.remove(cur);
                list.push((start, chr - 1));
                blocks.insert(cur, list);
                proof {
                    lemma_covered_kept(before, blocks@, cur as int);
                    assert forall|k2: int, j: int| 0 <= k2 < 16 && 0 <= j < blocks@[k2]@.len() implies {
                        let run = #[trigger] blocks@[k2]@[j];
                        &&& 0 <= run.0 <= run.1 < chr
                        &&& forall|c: int| run.0 <= c <= run.1 ==> #[trigger] self.catcode_value(c) == k2
                        &&& run.0 == 0 || self.catcode_value(run.0 - 1) != k2
                        &&& self.catcode_value(run.1 + 1) != k2
                    } by {
                        if k2 != cur {
                            assert(blocks@[k2] == before[k2]);
                        } else if j < before[k2]@.len() {
                            assert(blocks@[k2]@[j] == before[k2]@[j]);
                        }
                    }
                    assert forall|k2: int, j: int|
                        0 <= k2 < 16 && 0 <= j && j + 1 < blocks@[k2]@.len() implies #[trigger] blocks@[k2]@[j].1
                        < blocks@[k2]@[j + 1].0 by {
                        if k2 != cur {
                            assert(blocks@[k2] == before[k2]);
                        } else if j + 1 < before[k2]@.len() {
                            assert(blocks@[k2]@[j] == before[k2]@[j]);
                            assert(blocks@[k2]@[j + 1] == before[k2]@[j + 1]);
                        } else {
                            assert(blocks@[k2]@[j] == before[k2]@[j]);
                        }
                    }
                }
                start = chr;
                cur = cat;
            }
            chr = chr + 1;
        }
        let ghost before = blocks@;
        let mut list = blocks.remove(cur);
        list.push((start, MAX_USV - 1));
        blocks.insert(cur, list);
        proof {
            lemma_covered_kept(before, blocks@, cur as int);
            assert forall|k2: int, j: int| 0 <= k2 < 16 && 0 <= j < blocks@[k2]@.len() implies {
                let run = #[trigger] blocks@[k2]@[j];
                &&& 0 <= run.0 <= run.1 < MAX_USV
                &&& forall|c: int| run.0 <= c <= run.1 ==> #[trigger] self.catcode_value(c) == k2
                &&& run.0 == 0 || self.catcode_value(run.0 - 1) != k2
                &&& run.1 == MAX_USV - 1 || self.catcode_value(run.1 + 1) != k2
            } by {
                if k2 != cur {
                    assert(blocks@[k2] == before[k2]);
                } else if j < before[k2]@.len() {
                    assert(blocks@[k2]@[j] == before[k2]@[j]);
                }
            }
            assert forall|k2: int, j: int|
                0 <= k2 < 16 && 0 <= j && j + 1 < blocks@[k2]@.len() implies #[trigger] blocks@[k2]@[j].1
                < blocks@[k2]@[j + 1].0 by {
                if k2 != cur {
                    assert(blocks@[k2] == before[k2]);
                } else if j + 1 < before[k2]@.len() {
                    assert(blocks@[k2]@[j] == before[k2]@[j]);
                    assert(blocks@[k2]@[j + 1] == before[k2]@[j + 1]);
                } else {
                    assert(blocks@[k2]@[j] == before[k2]@[j]);
                }
            }
        }
        blocks
    }
}

/// The index of a category code.
pub fn cat_index(c: CatCode) -> (r: usize)
    ensures
        r == c.code(),
        r < 16,
{
    match c {
        CatCode::Escape => 0,
        CatCode::BeginGroup => 1,
        CatCode::EndGroup => 2,
        CatCode::MathShift => 3,
        CatCode::AlignmentTab => 4,
        CatCode::EndOfLine => 5,
        CatCode::MacroParameter => 6,
        CatCode::Superscript => 7,
        CatCode::Subscript => 8,
        CatCode::Ignored => 9,
        CatCode::Space => 10,
        CatCode::Letter => 11,
        CatCode::Other => 12,
        CatCode::Active => 13,
        CatCode::Comment => 14,
        CatCode::Invalid => 15,
    }
}

/// Two dumps that differ only in the four bytes at `p` read the same at
/// every field that does not overlap them.
proof fn lemma_other_fields(s: Seq<u8>, t: Seq<u8>, p: int, q: int)
    requires
        s.len() == t.len(),
        forall|i: int| 0 <= i < s.len() && (i < p || i >= p + 4) ==> s[i] == t[i],
        q + 4 <= p || p + 4 <= q,
        0 <= q,
        q + 4 <= s.len(),
    ensures
        be_i32_at(s, q) == be_i32_at(t, q),
{
    lemma_uint_frame(s, t, q, 4);
}

/// In a dump whose header is sound, giving one exact-match header field (the
/// magic, the memory top, the equivalences size or the hash prime) another
/// value makes decoding fail with a mismatch at that field's offset, giving
/// the serial number another value makes it fail as an unknown version, and
/// giving `hash_high` a value outside its bound makes it fail with a range
/// violation at its offset. `Format::parse` fails with `header_outcome`.
pub proof fn lemma_header_mutation(s: Seq<u8>, t: Seq<u8>, p: int)
    requires
        header_outcome(s) is None,
        p == 0 || p == 4 || p == 8 || p == 12 || p == 16 || p == 20,
        t.len() == s.len(),
        forall|i: int| 0 <= i < s.len() && (i < p || i >= p + 4) ==> s[i] == t[i],
        be_i32_at(t, p) != be_i32_at(s, p),
        p == 8 ==> !(0 <= be_i32_at(t, 8) <= (settings_for(be_i32_at(s, 4)).unwrap().eqtb_top
            - settings_for(be_i32_at(s, 4)).unwrap().eqtb_size)),
    ensures
        p != 4 && p != 8 ==> header_outcome(t) == Some(
            DecodeError::Mismatch { offset: p as usize, expected: be_i32_at(s, p) as i32, found: be_i32_at(t, p) as i32 },
        ),
        p == 4 ==> header_outcome(t) == Some(DecodeError::UnknownVersion { serial: be_i32_at(t, 4) as i32 }),
        p == 8 ==> header_outcome(t) == Some(
            DecodeError::OutOfRange {
                offset: 8,
                low: 0,
                high: (settings_for(be_i32_at(s, 4)).unwrap().eqtb_top - settings_for(be_i32_at(s, 4)).unwrap().eqtb_size) as i32,
                found: be_i32_at(t, 8) as i32,
            },
        ),
{
    assert(s.len() >= 28);
    if p != 0 {
        lemma_other_fields(s, t, p, 0);
    }
    if p != 4 {
        lemma_other_fields(s, t, p, 4);
    }
    if p != 8 {
        lemma_other_fields(s, t, p, 8);
    }
    if p != 12 {
        lemma_other_fields(s, t, p, 12);
    }
    if p != 16 {
        lemma_other_fields(s, t, p, 16);
    }
    if p != 20 {
        lemma_other_fields(s, t, p, 20);
    }
}

/// Every decoded format answers the active-character and category-code
/// lookups for each code point below `MAX_USV`: the entries they read exist.
pub proof fn lemma_lookups_defined(f: &Format, c: int)
    requires
        f.wf(),
        0 <= c < MAX_USV,
    ensures
        0 <= f.engine.settings.active_base + c < f.eqtb.entries@.len(),
        0 <= f.engine.settings.cat_code_base + c < f.eqtb.entries@.len(),
{
}

/// In a well-formed dump, giving the footer magic another value makes the
/// dump ill-formed, with every part before the footer still well formed and
/// the footer where it was, so that `Format::parse` fails with a mismatch at
/// the footer's offset.
#[verifier::spinoff_prover]
pub proof fn lemma_footer_mutation(s: Seq<u8>, t: Seq<u8>)
    requires
        dump_span(s) is Some,
        t.len() == s.len(),
        forall|i: int| 0 <= i < dump_span(s).unwrap() - 4 ==> s[i] == t[i],
        be_i32_at(t, dump_span(s).unwrap() - 4) != FOOTER_MAGIC,
    ensures
        dump_span(t) is None,
        footer_offset(t) == Some(dump_span(s).unwrap() - 4),
        !field_is(t, dump_span(s).unwrap() - 4, FOOTER_MAGIC),
{
    let st = settings_for(be_i32_at(s, 4)).unwrap();
    let hh = be_i32_at(s, 8);
    let q1 = pool_span(s, 28).unwrap();
    lemma_strings_mono(s, 32, be_i32_at(s, 28) as nat);
    let q2 = mem_span(s, q1, st.mem_top).unwrap();
    let q3 = runs_span(s, q2, st.eqtb_size + 1 + hh).unwrap();
    lemma_runs_mono(s, q2, st.eqtb_size + 1 + hh);
    let q4 = q3 + 8 + 8 * (st.prim_size + 1);
    let q5 = cshash_span(s, q4, st, hh as i32).unwrap();
    let lo = be_i32_at(s, q1) as i32;
    let mw = (be_i32_at(s, 28) + TOO_BIG_CHAR - 1) as i32;
    let q6 = font_span(s, q5, st.max_fonts, lo).unwrap();
    let q7 = hyph_span(s, q6, mw).unwrap();
    let f = trie_span(s, q7).unwrap();
    lemma_trie_mono(s, q7);
    assert(dump_span(s) == Some(f + 4));
    assert(agree(s, t, f));
    lemma_i32_frame(s, t, f, 0);
    lemma_i32_frame(s, t, f, 4);
    lemma_i32_frame(s, t, f, 8);
    lemma_i32_frame(s, t, f, 12);
    lemma_i32_frame(s, t, f, 16);
    lemma_i32_frame(s, t, f, 20);
    assert(header_outcome(t) is None);
    lemma_pool_frame(s, t, f, 28);
    lemma_mem_frame(s, t, f, q1, st.mem_top);
    lemma_runs_frame(s, t, f, q2, st.eqtb_size + 1 + hh);
    lemma_runs_entries_frame(s, t, f, q2, st.eqtb_size + 1 + hh);
    lemma_i32_frame(s, t, f, q3);
    lemma_i32_frame(s, t, f, q3 + 4);
    lemma_cshash_frame(s, t, f, q4, st, hh as i32);
    lemma_font_frame(s, t, f, q5, st.max_fonts, lo);
    lemma_hyph_frame(s, t, f, q6, mw);
    lemma_trie_frame(s, t, f, q7);
}

/// Offset of the two legacy locations of a dump whose regions before them
/// are well formed.
pub open spec fn legacy_locs_at(s: Seq<u8>) -> Option<int> {
    let st = settings_for(be_i32_at(s, 4)).unwrap();
    match pool_span(s, 28) {
        None => None,
        Some(q1) => match mem_span(s, q1, st.mem_top) {
            None => None,
            Some(q2) => runs_span(s, q2, st.eqtb_size + 1 + be_i32_at(s, 8)),
        },
    }
}

proof fn lemma_prefix_frame(s: Seq<u8>, t: Seq<u8>, lim: int)
    requires
        header_outcome(s) is None,
        legacy_locs_at(s) is Some,
        legacy_locs_at(s).unwrap() <= lim,
        agree(s, t, lim),
    ensures
        header_outcome(t) is None,
        be_i32_at(t, 4) == be_i32_at(s, 4),
        be_i32_at(t, 8) == be_i32_at(s, 8),
        pool_span(t, 28) == pool_span(s, 28),
        be_i32_at(t, 28) == be_i32_at(s, 28),
        mem_span(t, pool_span(s, 28).unwrap(), settings_for(be_i32_at(s, 4)).unwrap().mem_top) == mem_span(
            s,
            pool_span(s, 28).unwrap(),
            settings_for(be_i32_at(s, 4)).unwrap().mem_top,
        ),
        be_i32_at(t, pool_span(s, 28).unwrap()) == be_i32_at(s, pool_span(s, 28).unwrap()),
        legacy_locs_at(t) == legacy_locs_at(s),
{
    let st = settings_for(be_i32_at(s, 4)).unwrap();
    let hh = be_i32_at(s, 8);
    let q1 = pool_span(s, 28).unwrap();
    lemma_strings_mono(s, 32, be_i32_at(s, 28) as nat);
    let q2 = mem_span(s, q1, st.mem_top).unwrap();
    lemma_runs_mono(s, q2, st.eqtb_size + 1 + hh);
    lemma_i32_frame(s, t, lim, 0);
    lemma_i32_frame(s, t, lim, 4);
    lemma_i32_frame(s, t, lim, 8);
    lemma_i32_frame(s, t, lim, 12);
    lemma_i32_frame(s, t, lim, 16);
    lemma_i32_frame(s, t, lim, 20);
    lemma_pool_frame(s, t, lim, 28);
    lemma_mem_frame(s, t, lim, q1, st.mem_top);
    lemma_runs_frame(s, t, lim, q2, st.eqtb_size + 1 + hh);
    lemma_runs_entries_frame(s, t, lim, q2, st.eqtb_size + 1 + hh);
}

/// A well-formed dump stays well formed, with the same footer, whatever
/// follows its footer: bytes after it are never inspected.
#[verifier::spinoff_prover]
pub proof fn lemma_trailing_bytes_ignored(s: Seq<u8>, t: Seq<u8>)
    requires
        dump_span(s) is Some,
        t.len() == s.len(),
        forall|i: int| 0 <= i < dump_span(s).unwrap() ==> s[i] == t[i],
    ensures
        dump_span(t) == dump_span(s),
{
    let st = settings_for(be_i32_at(s, 4)).unwrap();
    let hh = be_i32_at(s, 8);
    let q1 = pool_span(s, 28).unwrap();
    lemma_strings_mono(s, 32, be_i32_at(s, 28) as nat);
    let q2 = mem_span(s, q1, st.mem_top).unwrap();
    let q3 = runs_span(s, q2, st.eqtb_size + 1 + hh).unwrap();
    lemma_runs_mono(s, q2, st.eqtb_size + 1 + hh);
    let q4 = q3 + 8 + 8 * (st.prim_size + 1);
    let q5 = cshash_span(s, q4, st, hh as i32).unwrap();
    let lo = be_i32_at(s, q1) as i32;
    let mw = (be_i32_at(s, 28) + TOO_BIG_CHAR - 1) as i32;
    let q6 = font_span(s, q5, st.max_fonts, lo).unwrap();
    let q7 = hyph_span(s, q6, mw).unwrap();
    let f = trie_span(s, q7).unwrap();
    lemma_trie_mono(s, q7);
    let e = f + 4;
    assert(dump_span(s) == Some(e));
    assert(agree(s, t, e));
    lemma_i32_frame(s, t, e, 0);
    lemma_i32_frame(s, t, e, 4);
    lemma_i32_frame(s, t, e, 8);
    lemma_i32_frame(s, t, e, 12);
    lemma_i32_frame(s, t, e, 16);
    lemma_i32_frame(s, t, e, 20);
    assert(header_outcome(t) is None);
    lemma_pool_frame(s, t, e, 28);
    lemma_mem_frame(s, t, e, q1, st.mem_top);
    lemma_runs_frame(s, t, e, q2, st.eqtb_size + 1 + hh);
    lemma_runs_entries_frame(s, t, e, q2, st.eqtb_size + 1 + hh);
    lemma_i32_frame(s, t, e, q3);
    lemma_i32_frame(s, t, e, q3 + 4);
    lemma_cshash_frame(s, t, e, q4, st, hh as i32);
    lemma_font_frame(s, t, e, q5, st.max_fonts, lo);
    lemma_hyph_frame(s, t, e, q6, mw);
    lemma_trie_frame(s, t, e, q7);
    lemma_i32_frame(s, t, e, f);
}

/// In a dump whose header and regions up to the two legacy locations are
/// well formed, giving either location (`w` = 0 for the first, 4 for the
/// second) a value outside `[hash_base, eqtb_top]` makes the dump
/// ill-formed, so that `Format::parse` fails.
pub proof fn lemma_legacy_loc_out_of_range(s: Seq<u8>, t: Seq<u8>, w: int)
    requires
        header_outcome(s) is None,
        legacy_locs_at(s) is Some,
        w == 0 || w == 4,
        t.len() == s.len(),
        forall|i: int| 0 <= i < legacy_locs_at(s).unwrap() + w ==> s[i] == t[i],
        !(settings_for(be_i32_at(s, 4)).unwrap().hash_base <= be_i32_at(t, legacy_locs_at(s).unwrap() + w)
            <= settings_for(be_i32_at(s, 4)).unwrap().eqtb_top),
    ensures
        dump_span(t) is None,
{
    let q3 = legacy_locs_at(s).unwrap();
    assert(agree(s, t, q3));
    lemma_prefix_frame(s, t, q3);
}

/// Offset of the font block of a well-formed dump.
pub open spec fn blocks_at(s: Seq<u8>) -> int {
    let st = settings_for(be_i32_at(s, 4)).unwrap();
    cshash_span(s, cshash_at(s), st, be_i32_at(s, 8) as i32).unwrap()
}

/// The glue bound of a dump's fonts: its memory arena's `lo_mem_max`.
pub open spec fn lo_mem_max_of(s: Seq<u8>) -> i32 {
    be_i32_at(s, pool_span(s, 28).unwrap()) as i32
}

/// The largest string id a hyphenation word of a dump may name.
pub open spec fn max_word_of(s: Seq<u8>) -> i32 {
    (be_i32_at(s, 28) + TOO_BIG_CHAR - 1) as i32
}

#[verifier::rlimit(100)]
#[verifier::spinoff_prover]
proof fn lemma_same_up_to_blocks(s: Seq<u8>, t: Seq<u8>, lim: int)
    requires
        dump_span(s) is Some,
        blocks_at(s) <= lim,
        agree(s, t, lim),
    ensures
        dump_span(t) == blocks_span(
            t,
            blocks_at(s),
            settings_for(be_i32_at(s, 4)).unwrap().max_fonts,
            lo_mem_max_of(s),
            max_word_of(s),
        ),
        blocks_at(s) >= 0,
{
    let st = settings_for(be_i32_at(s, 4)).unwrap();
    let hh = be_i32_at(s, 8);
    let q1 = pool_span(s, 28).unwrap();
    lemma_strings_mono(s, 32, be_i32_at(s, 28) as nat);
    let q2 = mem_span(s, q1, st.mem_top).unwrap();
    let q3 = runs_span(s, q2, st.eqtb_size + 1 + hh).unwrap();
    lemma_runs_mono(s, q2, st.eqtb_size + 1 + hh);
    let q4 = q3 + 8 + 8 * (st.prim_size + 1);
    lemma_cshash_mono(s, q4, st, hh as i32);
    lemma_prefix_frame(s, t, lim);
    lemma_runs_entries_frame(s, t, lim, q2, st.eqtb_size + 1 + hh);
    lemma_i32_frame(s, t, lim, q3);
    lemma_i32_frame(s, t, lim, q3 + 4);
    lemma_cshash_frame(s, t, lim, q4, st, hh as i32);
    let lo = lo_mem_max_of(s);
    let mw = max_word_of(s);
    assert(tail_span(t, q3, st, hh, lo, mw) == blocks_span(t, blocks_at(s), st.max_fonts, lo, mw));
    assert(body_span(t, st, hh) == tail_span(t, q3, st, hh, lo, mw));
}

/// In a well-formed dump, changing bytes only from the font block on so
/// that the font block is ill-formed (some field outside its bound, as
/// `font_span` states them) makes `Format::parse` fail.
pub proof fn lemma_font_block_out_of_range(s: Seq<u8>, t: Seq<u8>)
    requires
        dump_span(s) is Some,
        t.len() == s.len(),
        forall|i: int| 0 <= i < blocks_at(s) ==> s[i] == t[i],
        font_span(t, blocks_at(s), settings_for(be_i32_at(s, 4)).unwrap().max_fonts, lo_mem_max_of(s)) is None,
    ensures
        dump_span(t) is None,
{
    assert(agree(s, t, blocks_at(s)));
    lemma_same_up_to_blocks(s, t, blocks_at(s));
}

/// In a well-formed dump, changing bytes only from the hyphenation block on
/// so that the block is ill-formed (a slot outside the table, or a word or
/// list outside its bound, as `hyph_span` states them) makes
/// `Format::parse` fail.
pub proof fn lemma_hyph_block_out_of_range(s: Seq<u8>, t: Seq<u8>)
    requires
        dump_span(s) is Some,
        t.len() == s.len(),
        forall|i: int|
            0 <= i < font_span(s, blocks_at(s), settings_for(be_i32_at(s, 4)).unwrap().max_fonts, lo_mem_max_of(s)).unwrap()
                ==> s[i] == t[i],
        hyph_span(
            t,
            font_span(s, blocks_at(s), settings_for(be_i32_at(s, 4)).unwrap().max_fonts, lo_mem_max_of(s)).unwrap(),
            max_word_of(s),
        ) is None,
    ensures
        dump_span(t) is None,
{
    let q5 = blocks_at(s);
    let mf = settings_for(be_i32_at(s, 4)).unwrap().max_fonts;
    let q6 = font_span(s, q5, mf, lo_mem_max_of(s)).unwrap();
    lemma_font_mono(s, q5, mf, lo_mem_max_of(s));
    assert(agree(s, t, q6));
    lemma_same_up_to_blocks(s, t, q6);
    lemma_font_frame(s, t, q6, q5, mf, lo_mem_max_of(s));
}

/// In a well-formed dump, changing bytes only from the trie block on so that
/// the block is ill-formed (`hyph_start` or `trie_op_ptr` outside its bound,
/// or a language claim out of range, as `trie_span` states them) makes
/// `Format::parse` fail.
pub proof fn lemma_trie_block_out_of_range(s: Seq<u8>, t: Seq<u8>, at: int)
    requires
        dump_span(s) is Some,
        at == hyph_span(
            s,
            font_span(s, blocks_at(s), settings_for(be_i32_at(s, 4)).unwrap().max_fonts, lo_mem_max_of(s)).unwrap(),
            max_word_of(s),
        ).unwrap(),
        t.len() == s.len(),
        forall|i: int| 0 <= i < at ==> s[i] == t[i],
        trie_span(t, at) is None,
    ensures
        dump_span(t) is None,
{
    let q5 = blocks_at(s);
    let mf = settings_for(be_i32_at(s, 4)).unwrap().max_fonts;
    let q6 = font_span(s, q5, mf, lo_mem_max_of(s)).unwrap();
    lemma_font_mono(s, q5, mf, lo_mem_max_of(s));
    lemma_hyph_mono(s, q6, max_word_of(s));
    assert(agree(s, t, at));
    lemma_same_up_to_blocks(s, t, at);
    lemma_font_frame(s, t, at, q5, mf, lo_mem_max_of(s));
    lemma_hyph_frame(s, t, at, q6, max_word_of(s));
}

} // verus!
