//! The font block: the font-program words and one parallel array per font
//! attribute, with as many entries as there are fonts.
use vstd::prelude::*;
use crate::base::{MAX_HALFWORD, MIN_HALFWORD, TOO_BIG_CHAR};
use crate::reader::{
    agree, be_i32_at, lemma_i32_frame, ranged_i32, ranged_i32_array, ranged_ok, read_i16_array, read_i32_array, read_i64_array,
    DecodeError,
};

verus! {

/// Most words the font-program array may announce.
pub const MAX_FONT_MEM: i32 = 0x7FFF_FFFF;

/// The decoded font block. Font 0 is the null font and is stored like the
/// others.
pub struct FontTables {
    pub font_info: Vec<i64>,
    pub font_ptr: i32,
    pub check: Vec<i64>,
    pub size: Vec<i32>,
    pub dsize: Vec<i32>,
    pub params: Vec<i32>,
    pub hyphen_char: Vec<i32>,
    pub skew_char: Vec<i32>,
    pub name: Vec<i32>,
    pub area: Vec<i32>,
    pub bc: Vec<i16>,
    pub ec: Vec<i16>,
    pub char_base: Vec<i32>,
    pub width_base: Vec<i32>,
    pub height_base: Vec<i32>,
    pub depth_base: Vec<i32>,
    pub italic_base: Vec<i32>,
    pub lig_kern_base: Vec<i32>,
    pub kern_base: Vec<i32>,
    pub exten_base: Vec<i32>,
    pub param_base: Vec<i32>,
    pub glue: Vec<i32>,
    pub bchar_label: Vec<i32>,
    pub bchar: Vec<i32>,
    pub false_bchar: Vec<i32>,
}

impl FontTables {
    /// Every per-font array has one entry per font, and each ranged
    /// attribute lies in its bound.
    pub open spec fn wf(&self, lo_mem_max: i32) -> bool {
        let n = self.font_ptr + 1;
        &&& self.font_info@.len() >= 7
        &&& self.check@.len() == n && self.size@.len() == n && self.dsize@.len() == n
        &&& self.params@.len() == n && self.hyphen_char@.len() == n && self.skew_char@.len() == n
        &&& self.name@.len() == n && self.area@.len() == n && self.bc@.len() == n && self.ec@.len() == n
        &&& self.char_base@.len() == n && self.width_base@.len() == n && self.height_base@.len() == n
        &&& self.depth_base@.len() == n && self.italic_base@.len() == n && self.lig_kern_base@.len() == n
        &&& self.kern_base@.len() == n && self.exten_base@.len() == n && self.param_base@.len() == n
        &&& self.glue@.len() == n && self.bchar_label@.len() == n && self.bchar@.len() == n
        &&& self.false_bchar@.len() == n
        &&& forall|i: int| 0 <= i < n ==> MIN_HALFWORD <= #[trigger] self.params@[i] <= MAX_HALFWORD
        &&& forall|i: int| 0 <= i < n ==> MIN_HALFWORD <= #[trigger] self.glue@[i] <= lo_mem_max
        &&& forall|i: int| 0 <= i < n ==> 0 <= #[trigger] self.bchar_label@[i] < self.font_info@.len()
        &&& forall|i: int| 0 <= i < n ==> 0 <= #[trigger] self.bchar@[i] <= TOO_BIG_CHAR
        &&& forall|i: int| 0 <= i < n ==> 0 <= #[trigger] self.false_bchar@[i] <= TOO_BIG_CHAR
    }
}

/// Decodes the font block at `pos`: the font-program length in
/// `[7, MAX_FONT_MEM]` and its words, the last font's index in
/// `[0, max_fonts]`, then each per-font array in turn. Glue pointers must lie
/// in `[MIN_HALFWORD, lo_mem_max]` and boundary labels index the
/// font-program words.
/// Type, size and name attributes: `(check, size, dsize, params,
/// hyphen_char, skew_char, name, area, bc, ec)`.
pub type FontMetrics = (Vec<i64>, Vec<i32>, Vec<i32>, Vec<i32>, Vec<i32>, Vec<i32>, Vec<i32>, Vec<i32>, Vec<i16>, Vec<i16>);

/// Table offsets: `(char, width, height, depth, italic, lig_kern, kern,
/// exten, param)`.
pub type FontBases = (Vec<i32>, Vec<i32>, Vec<i32>, Vec<i32>, Vec<i32>, Vec<i32>, Vec<i32>, Vec<i32>, Vec<i32>);

/// Pointers and boundary characters: `(glue, bchar_label, bchar, false_bchar)`.
pub type FontBounds = (Vec<i32>, Vec<i32>, Vec<i32>, Vec<i32>);

/// Whether the per-font attributes from `a` on, `n` of each, fit and have
/// their design-parameter counts in `[MIN_HALFWORD, MAX_HALFWORD]`.
pub open spec fn metrics_ok(s: Seq<u8>, a: int, n: int) -> bool {
    &&& a + 40 * n <= s.len()
    &&& forall|i: int| 0 <= i < n ==> #[trigger] ranged_ok(s, a + 16 * n + 4 * i, MIN_HALFWORD, MAX_HALFWORD)
}

/// Whether the four bounded per-font arrays at `b`, `n` entries each, hold
/// glue pointers in `[MIN_HALFWORD, lo_mem_max]`, boundary labels below
/// `fmem_ptr` and boundary characters in `[0, TOO_BIG_CHAR]`.
pub open spec fn bounds_ok(s: Seq<u8>, b: int, n: int, fmem_ptr: i32, lo_mem_max: i32) -> bool {
    &&& forall|i: int| 0 <= i < n ==> #[trigger] ranged_ok(s, b + 4 * i, MIN_HALFWORD, lo_mem_max)
    &&& forall|i: int| 0 <= i < n ==> #[trigger] ranged_ok(s, b + 4 * n + 4 * i, 0, (fmem_ptr - 1) as i32)
    &&& forall|i: int| 0 <= i < n ==> #[trigger] ranged_ok(s, b + 8 * n + 4 * i, 0, TOO_BIG_CHAR)
    &&& forall|i: int| 0 <= i < n ==> #[trigger] ranged_ok(s, b + 12 * n + 4 * i, 0, TOO_BIG_CHAR)
}

/// Where a font block at `p` ends, if it is well formed.
pub open spec fn font_span(s: Seq<u8>, p: int, max_fonts: i32, lo_mem_max: i32) -> Option<int> {
    let m = be_i32_at(s, p);
    let q = p + 4 + 8 * m;
    let n = be_i32_at(s, q) + 1;
    let a = q + 4;
    if ranged_ok(s, p, 7, MAX_FONT_MEM) && ranged_ok(s, q, 0, max_fonts) && metrics_ok(s, a, n) && a + 92 * n
        <= s.len() && bounds_ok(s, a + 76 * n, n, m as i32, lo_mem_max) {
        Some(a + 92 * n)
    } else {
        None
    }
}

fn decode_font_metrics(input: &[u8], pos: usize, n: usize) -> (r: Result<(FontMetrics, usize), DecodeError>)
    requires
        pos <= input@.len(),
    ensures
        match r {
            Ok((m, e)) => {
                &&& m.0@.len() == n && m.1@.len() == n && m.2@.len() == n && m.3@.len() == n
                &&& m.4@.len() == n && m.5@.len() == n && m.6@.len() == n && m.7@.len() == n
                &&& m.8@.len() == n && m.9@.len() == n
                &&& forall|i: int| 0 <= i < n ==> MIN_HALFWORD <= #[trigger] m.3@[i] <= MAX_HALFWORD
                &&& e == pos + 40 * n && e <= input@.len()
                &&& metrics_ok(input@, pos as int, n as int)
            },
            Err(_) => !metrics_ok(input@, pos as int, n as int),
        },
{
    let (check, p) = read_i64_array(input, pos, n)?;
    let (size, p) = read_i32_array(input, p, n)?;
    let (dsize, p) = read_i32_array(input, p, n)?;
    let (params, p) = match ranged_i32_array(input, p, n, MIN_HALFWORD, MAX_HALFWORD) {
        Ok(x) => x,
        Err(err) => {
            proof {
                let k = choose|k: int| 0 <= k < n && !#[trigger] ranged_ok(input@, p + 4 * k, MIN_HALFWORD, MAX_HALFWORD);
                assert(!ranged_ok(input@, pos + 16 * n + 4 * k, MIN_HALFWORD, MAX_HALFWORD));
            }
            return Err(err);
        },
    };
    let (hyphen_char, p) = read_i32_array(input, p, n)?;
    let (skew_char, p) = read_i32_array(input, p, n)?;
    let (name, p) = read_i32_array(input, p, n)?;
    let (area, p) = read_i32_array(input, p, n)?;
    let (bc, p) = read_i16_array(input, p, n)?;
    let (ec, p) = read_i16_array(input, p, n)?;
    Ok(((check, size, dsize, params, hyphen_char, skew_char, name, area, bc, ec), p))
}

fn decode_font_bases(input: &[u8], pos: usize, n: usize) -> (r: Result<(FontBases, usize), DecodeError>)
    requires
        pos <= input@.len(),
    ensures
        match r {
            Ok((b, e)) => {
                &&& b.0@.len() == n && b.1@.len() == n && b.2@.len() == n && b.3@.len() == n
                &&& b.4@.len() == n && b.5@.len() == n && b.6@.len() == n && b.7@.len() == n
                &&& b.8@.len() == n
                &&& e == pos + 36 * n && e <= input@.len()
            },
            Err(_) => pos + 36 * n > input@.len(),
        },
{
    let (char_base, p) = read_i32_array(input, pos, n)?;
    let (width_base, p) = read_i32_array(input, p, n)?;
    let (height_base, p) = read_i32_array(input, p, n)?;
    let (depth_base, p) = read_i32_array(input, p, n)?;
    let (italic_base, p) = read_i32_array(input, p, n)?;
    let (lig_kern_base, p) = read_i32_array(input, p, n)?;
    let (kern_base, p) = read_i32_array(input, p, n)?;
    let (exten_base, p) = read_i32_array(input, p, n)?;
    let (param_base, p) = read_i32_array(input, p, n)?;
    Ok(((char_base, width_base, height_base, depth_base, italic_base, lig_kern_base, kern_base, exten_base, param_base), p))
}

fn decode_font_bounds(input: &[u8], pos: usize, n: usize, fmem_ptr: i32, lo_mem_max: i32) -> (r: Result<
    (FontBounds, usize),
    DecodeError,
>)
    requires
        pos <= input@.len(),
        7 <= fmem_ptr,
    ensures
        match r {
            Ok((b, e)) => {
                &&& b.0@.len() == n && b.1@.len() == n && b.2@.len() == n && b.3@.len() == n
                &&& forall|i: int| 0 <= i < n ==> MIN_HALFWORD <= #[trigger] b.0@[i] <= lo_mem_max
                &&& forall|i: int| 0 <= i < n ==> 0 <= #[trigger] b.1@[i] < fmem_ptr
                &&& forall|i: int| 0 <= i < n ==> 0 <= #[trigger] b.2@[i] <= TOO_BIG_CHAR
                &&& forall|i: int| 0 <= i < n ==> 0 <= #[trigger] b.3@[i] <= TOO_BIG_CHAR
                &&& e == pos + 16 * n && e <= input@.len()
                &&& bounds_ok(input@, pos as int, n as int, fmem_ptr, lo_mem_max)
            },
            Err(_) => !bounds_ok(input@, pos as int, n as int, fmem_ptr, lo_mem_max),
        },
{
    let (glue, p) = match ranged_i32_array(input, pos, n, MIN_HALFWORD, lo_mem_max) {
        Ok(x) => x,
        Err(err) => {
            proof {
                let k = choose|k: int| 0 <= k < n && !#[trigger] ranged_ok(input@, pos + 4 * k, MIN_HALFWORD, lo_mem_max);
                assert(!ranged_ok(input@, pos + 4 * k, MIN_HALFWORD, lo_mem_max));
            }
            return Err(err);
        },
    };
    let (bchar_label, p) = match ranged_i32_array(input, p, n, 0, fmem_ptr - 1) {
        Ok(x) => x,
        Err(err) => {
            proof {
                let k = choose|k: int| 0 <= k < n && !#[trigger] ranged_ok(input@, p + 4 * k, 0, (fmem_ptr - 1) as i32);
                assert(!ranged_ok(input@, pos + 4 * n + 4 * k, 0, (fmem_ptr - 1) as i32));
            }
            return Err(err);
        },
    };
    let (bchar, p) = match ranged_i32_array(input, p, n, 0, TOO_BIG_CHAR) {
        Ok(x) => x,
        Err(err) => {
            proof {
                let k = choose|k: int| 0 <= k < n && !#[trigger] ranged_ok(input@, p + 4 * k, 0, TOO_BIG_CHAR);
                assert(!ranged_ok(input@, pos + 8 * n + 4 * k, 0, TOO_BIG_CHAR));
            }
            return Err(err);
        },
    };
    let (false_bchar, p) = match ranged_i32_array(input, p, n, 0, TOO_BIG_CHAR) {
        Ok(x) => x,
        Err(err) => {
            proof {
                let k = choose|k: int| 0 <= k < n && !#[trigger] ranged_ok(input@, p + 4 * k, 0, TOO_BIG_CHAR);
                assert(!ranged_ok(input@, pos + 12 * n + 4 * k, 0, TOO_BIG_CHAR));
            }
            return Err(err);
        },
    };
    Ok(((glue, bchar_label, bchar, false_bchar), p))
}

/// Decodes the font block at `pos`: the font-program length in
/// `[7, MAX_FONT_MEM]` and its words, the last font's index in
/// `[0, max_fonts]`, then each per-font array in turn. Glue pointers must lie
/// in `[MIN_HALFWORD, lo_mem_max]` and boundary labels index the
/// font-program words.
pub fn decode_fonts(input: &[u8], pos: usize, max_fonts: i32, lo_mem_max: i32) -> (r: Result<
    (FontTables, usize),
    DecodeError,
>)
    requires
        pos <= input@.len(),
        0 <= max_fonts,
    ensures
        match r {
            Ok((f, e)) => {
                &&& ranged_ok(input@, pos as int, 7, MAX_FONT_MEM)
                &&& f.font_info@.len() == be_i32_at(input@, pos as int)
                &&& ranged_ok(input@, pos + 4 + 8 * f.font_info@.len(), 0, max_fonts)
                &&& f.font_ptr == be_i32_at(input@, pos + 4 + 8 * f.font_info@.len())
                &&& f.wf(lo_mem_max)
                &&& e == pos + 8 + 8 * f.font_info@.len() + 92 * (f.font_ptr + 1)
                &&& e <= input@.len()
                &&& font_span(input@, pos as int, max_fonts, lo_mem_max) == Some(e as int)
            },
            Err(_) => font_span(input@, pos as int, max_fonts, lo_mem_max) is None,
        },
{
    let (fmem_ptr, p) = ranged_i32(input, pos, 7, MAX_FONT_MEM)?;
    let (font_info, p) = read_i64_array(input, p, fmem_ptr as usize)?;
    let (font_ptr, p) = ranged_i32(input, p, 0, max_fonts)?;
    let n: usize = font_ptr as usize + 1;
    let (m, p) = decode_font_metrics(input, p, n)?;
    let (b, p) = match decode_font_bases(input, p, n) {
        Ok(x) => x,
        Err(err) => {
            assert(p + 36 * n > input@.len());
            return Err(err);
        },
    };
    let (g, p) = decode_font_bounds(input, p, n, fmem_ptr, lo_mem_max)?;
    let (check, size, dsize, params, hyphen_char, skew_char, name, area, bc, ec) = m;
    let (char_base, width_base, height_base, depth_base, italic_base, lig_kern_base, kern_base, exten_base, param_base) = b;
    let (glue, bchar_label, bchar, false_bchar) = g;
    let f = FontTables {
        font_info,
        font_ptr,
        check,
        size,
        dsize,
        params,
        hyphen_char,
        skew_char,
        name,
        area,
        bc,
        ec,
        char_base,
        width_base,
        height_base,
        depth_base,
        italic_base,
        lig_kern_base,
        kern_base,
        exten_base,
        param_base,
        glue,
        bchar_label,
        bchar,
        false_bchar,
    };
    Ok((f, p))
}

/// A font block reads the same in inputs that agree up to its end.
pub proof fn lemma_font_frame(s: Seq<u8>, t: Seq<u8>, lim: int, p: int, max_fonts: i32, lo_mem_max: i32)
    requires
        agree(s, t, lim),
        0 <= p,
        font_span(s, p, max_fonts, lo_mem_max) is Some,
        font_span(s, p, max_fonts, lo_mem_max).unwrap() <= lim,
    ensures
        font_span(t, p, max_fonts, lo_mem_max) == font_span(s, p, max_fonts, lo_mem_max),
{
    let m = be_i32_at(s, p);
    let q = p + 4 + 8 * m;
    lemma_i32_frame(s, t, lim, p);
    lemma_i32_frame(s, t, lim, q);
    let n = be_i32_at(s, q) + 1;
    let a = q + 4;
    let b = a + 76 * n;
    assert forall|i: int| 0 <= i < n implies #[trigger] ranged_ok(t, a + 16 * n + 4 * i, MIN_HALFWORD, MAX_HALFWORD) by {
        lemma_i32_frame(s, t, lim, a + 16 * n + 4 * i);
    }
    assert forall|i: int| 0 <= i < n implies #[trigger] ranged_ok(t, b + 4 * i, MIN_HALFWORD, lo_mem_max) by {
        lemma_i32_frame(s, t, lim, b + 4 * i);
    }
    assert forall|i: int| 0 <= i < n implies #[trigger] ranged_ok(t, b + 4 * n + 4 * i, 0, (m - 1) as i32) by {
        lemma_i32_frame(s, t, lim, b + 4 * n + 4 * i);
    }
    assert forall|i: int| 0 <= i < n implies #[trigger] ranged_ok(t, b + 8 * n + 4 * i, 0, TOO_BIG_CHAR) by {
        lemma_i32_frame(s, t, lim, b + 8 * n + 4 * i);
    }
    assert forall|i: int| 0 <= i < n implies #[trigger] ranged_ok(t, b + 12 * n + 4 * i, 0, TOO_BIG_CHAR) by {
        lemma_i32_frame(s, t, lim, b + 12 * n + 4 * i);
    }
}

/// A font block ends past its first eight bytes.
pub proof fn lemma_font_mono(s: Seq<u8>, p: int, max_fonts: i32, lo_mem_max: i32)
    requires
        font_span(s, p, max_fonts, lo_mem_max) is Some,
    ensures
        p + 8 <= font_span(s, p, max_fonts, lo_mem_max).unwrap(),
{
}

} // verus!
