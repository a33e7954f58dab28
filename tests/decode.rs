use xetex_format::base::{MAX_USV, MIN_HALFWORD};
use xetex_format::engine::{CatCode, Engine, LATEST_VERSION};
use xetex_format::format::{Format, FOOTER_MAGIC, HEADER_MAGIC};
use xetex_format::hyph::{decode_hyph_exceptions, unpack_hyph_head};
use xetex_format::reader::{ranged_i32, read_i16, read_i32, read_u16, DecodeError};
use xetex_format::trie::{decode_op_index, decode_trie};

fn put32(b: &mut Vec<u8>, v: i32) {
    b.extend_from_slice(&v.to_be_bytes());
}

fn put16(b: &mut Vec<u8>, v: u16) {
    b.extend_from_slice(&v.to_be_bytes());
}

fn zeros(b: &mut Vec<u8>, n: usize) {
    b.extend(std::iter::repeat(0u8).take(n));
}

const EQTB_SIZE: i32 = 8941458;
const HASH_BASE: i32 = 2228226;
const PRIM_SIZE: usize = 500;

/// A dump with every region as small as it may be.
fn minimal_dump() -> Vec<u8> {
    let mut b = Vec::new();
    put32(&mut b, HEADER_MAGIC);
    put32(&mut b, LATEST_VERSION);
    put32(&mut b, 0); // hash_high
    put32(&mut b, 4999999);
    put32(&mut b, EQTB_SIZE);
    put32(&mut b, 8501);
    put32(&mut b, 607); // hyphenation prime
    put32(&mut b, 0); // no strings
    put32(&mut b, 0); // lo_mem_max
    put32(&mut b, 0); // no memory words
    put32(&mut b, EQTB_SIZE + 1); // one run covering the table
    put16(&mut b, 0);
    put32(&mut b, 0);
    put32(&mut b, HASH_BASE); // par_loc
    put32(&mut b, HASH_BASE); // write_loc
    zeros(&mut b, 8 * (PRIM_SIZE + 1));
    put32(&mut b, 0); // empty control-sequence hash
    put32(&mut b, 7); // font-program words
    zeros(&mut b, 8 * 7);
    put32(&mut b, 0); // font_ptr
    zeros(&mut b, 92);
    put32(&mut b, 0); // hyphenation count
    put32(&mut b, 0); // next free slot
    put32(&mut b, 0); // trie_max
    put32(&mut b, 0); // hyph_start
    zeros(&mut b, 10);
    put32(&mut b, 0); // max hyphenatable char
    put32(&mut b, 0); // trie_op_ptr
    put32(&mut b, FOOTER_MAGIC);
    b
}

#[test]
fn minimal_dump_decodes() {
    let f = Format::parse(&minimal_dump()).unwrap();
    assert_eq!(f.engine.version, 33);
    assert_eq!(f.strings.len(), 0);
    assert_eq!(f.mem.lo_mem_max, 0);
    assert_eq!(f.eqtb.entries.len(), EQTB_SIZE as usize + 1);
    assert_eq!(f.cshash.entries.len(), 0);
}

#[test]
fn header_bit_flip_is_mismatch_at_zero() {
    let mut b = minimal_dump();
    b[3] ^= 1;
    let r = Format::parse(&b);
    assert_eq!(
        r.err(),
        Some(DecodeError::Mismatch { offset: 0, expected: HEADER_MAGIC, found: HEADER_MAGIC ^ 1 })
    );
}

#[test]
fn short_input_is_truncated() {
    assert_eq!(Format::parse(&[0x54, 0x54]).err(), Some(DecodeError::Truncated { offset: 0, needed: 2 }));
    let b = minimal_dump();
    let cut = &b[..b.len() - 1];
    assert_eq!(Format::parse(cut).err(), Some(DecodeError::Truncated { offset: b.len() - 4, needed: 1 }));
}

#[test]
fn unknown_serial_is_rejected() {
    let mut b = minimal_dump();
    b[4..8].copy_from_slice(&32i32.to_be_bytes());
    assert_eq!(Format::parse(&b).err(), Some(DecodeError::UnknownVersion { serial: 32 }));
    assert!(Engine::new_for_version(32).is_none());
}

#[test]
fn changed_mem_top_is_mismatch() {
    let mut b = minimal_dump();
    b[12..16].copy_from_slice(&5000000i32.to_be_bytes());
    assert_eq!(
        Format::parse(&b).err(),
        Some(DecodeError::Mismatch { offset: 12, expected: 4999999, found: 5000000 })
    );
}

#[test]
fn changed_hash_prime_is_mismatch() {
    let mut b = minimal_dump();
    b[20..24].copy_from_slice(&8500i32.to_be_bytes());
    assert_eq!(
        Format::parse(&b).err(),
        Some(DecodeError::Mismatch { offset: 20, expected: 8501, found: 8500 })
    );
}

#[test]
fn negative_hash_high_is_out_of_range() {
    let mut b = minimal_dump();
    b[8..12].copy_from_slice(&(-1i32).to_be_bytes());
    assert_eq!(
        Format::parse(&b).err(),
        Some(DecodeError::OutOfRange { offset: 8, low: 0, high: 600000, found: -1 })
    );
}

#[test]
fn changed_footer_is_mismatch() {
    let mut b = minimal_dump();
    let n = b.len();
    b[n - 1] = 0x9B;
    assert_eq!(
        Format::parse(&b).err(),
        Some(DecodeError::Mismatch { offset: n - 4, expected: FOOTER_MAGIC, found: 0x29B })
    );
}

#[test]
fn trailing_bytes_are_ignored() {
    let mut b = minimal_dump();
    b.extend_from_slice(&[1, 2, 3]);
    assert!(Format::parse(&b).is_ok());
}

#[test]
fn font_pointer_above_max_fonts_is_out_of_range() {
    let mut b = minimal_dump();
    // font_ptr follows the font-program length and its seven words.
    let font_block = 28 + 4 + 8 + 10 + 8 + 8 * (PRIM_SIZE + 1) + 4;
    let at = font_block + 4 + 56;
    b[at..at + 4].copy_from_slice(&9001i32.to_be_bytes());
    assert_eq!(
        Format::parse(&b).err(),
        Some(DecodeError::OutOfRange { offset: at, low: 0, high: 9000, found: 9001 })
    );
}

#[test]
fn catcode_runs_of_uniform_table() {
    let f = Format::parse(&minimal_dump()).unwrap();
    let runs = f.catcode_runs();
    assert_eq!(runs.len(), 16);
    assert_eq!(runs[0], vec![(0, MAX_USV - 1)]);
    for k in 1..16 {
        assert!(runs[k].is_empty());
    }
    assert_eq!(f.eqtb_catcode(65), Some(CatCode::Escape));
}

#[test]
fn every_active_lookup_answers() {
    let f = Format::parse(&minimal_dump()).unwrap();
    for c in [0, 65, MAX_USV - 1] {
        assert_eq!(f.eqtb_active(c).ty, 0);
        assert!(f.eqtb_catcode(c).is_some());
    }
    let actives = f.defined_actives();
    assert_eq!(actives.len(), MAX_USV as usize);
    assert_eq!(actives[65].0, 65);
}

#[test]
fn packed_hyph_record_sets_link() {
    let mut b = Vec::new();
    put32(&mut b, 1);
    put32(&mut b, 0);
    put32(&mut b, 0x0002_0005);
    put32(&mut b, 0);
    put32(&mut b, MIN_HALFWORD);
    let (h, end) = decode_hyph_exceptions(&b, 0, 0xFFFF).ok().unwrap();
    assert_eq!(end, b.len());
    assert_eq!(h.link[5], 2);
    assert_eq!(h.word[5], 0);
    assert_eq!(h.list[5], MIN_HALFWORD);
    assert_eq!(h.link[2], 0);
}

#[test]
fn hyph_records_round_trip() {
    let entries = [(0u16, 7i32, 3i32, 100i32), (9, 8000, 65540, -5), (1, 0, 12, 0)];
    let mut b = Vec::new();
    put32(&mut b, entries.len() as i32);
    put32(&mut b, 0);
    for (next, slot, word, list) in entries {
        let head = if next > 0 { next as i32 * 0x10000 + slot } else { slot };
        put32(&mut b, head);
        put32(&mut b, word);
        put32(&mut b, list);
    }
    let (h, _) = decode_hyph_exceptions(&b, 0, 0x1_0000 + 9).ok().unwrap();
    for (next, slot, word, list) in entries {
        assert_eq!(h.link[slot as usize], next);
        assert_eq!(h.word[slot as usize], word);
        assert_eq!(h.list[slot as usize], list);
    }
    assert_eq!(h.word[1], 0);
}

#[test]
fn unpack_hyph_head_splits() {
    assert_eq!(unpack_hyph_head(0x0002_0005), (2, 5));
    assert_eq!(unpack_hyph_head(0xFFFF), (0, 0xFFFF));
    assert_eq!(unpack_hyph_head(0x0001_0000), (1, 0));
    assert_eq!(unpack_hyph_head(17), (0, 17));
}

#[test]
fn hyph_slot_outside_table_is_out_of_range() {
    let mut b = Vec::new();
    put32(&mut b, 1);
    put32(&mut b, 0);
    put32(&mut b, 8191);
    put32(&mut b, 0);
    put32(&mut b, 0);
    assert_eq!(
        decode_hyph_exceptions(&b, 0, 100).err(),
        Some(DecodeError::OutOfRange { offset: 8, low: 0, high: 8190, found: 8191 })
    );
}

#[test]
fn hyph_word_above_string_count_is_out_of_range() {
    let mut b = Vec::new();
    put32(&mut b, 1);
    put32(&mut b, 0);
    put32(&mut b, 3);
    put32(&mut b, 101);
    put32(&mut b, 0);
    assert_eq!(
        decode_hyph_exceptions(&b, 0, 100).err(),
        Some(DecodeError::OutOfRange { offset: 12, low: 0, high: 100, found: 101 })
    );
}

#[test]
fn op_index_segments_partition_budget() {
    let mut b = Vec::new();
    for (lang, count) in [(10, 3), (4, 2)] {
        put32(&mut b, lang);
        put32(&mut b, count);
    }
    let (ix, end) = decode_op_index(&b, 0, 5).ok().unwrap();
    assert_eq!(end, 16);
    assert_eq!((ix.op_start[10], ix.trie_used[10]), (2, 3));
    assert_eq!((ix.op_start[4], ix.trie_used[4]), (0, 2));
    assert_eq!((ix.op_start[0], ix.trie_used[0]), (0, 0));
    assert_eq!((ix.op_start[255], ix.trie_used[255]), (0, 0));
}

#[test]
fn op_index_language_must_decrease() {
    let mut b = Vec::new();
    for (lang, count) in [(10, 3), (10, 2)] {
        put32(&mut b, lang);
        put32(&mut b, count);
    }
    assert_eq!(
        decode_op_index(&b, 0, 5).err(),
        Some(DecodeError::OutOfRange { offset: 8, low: 0, high: 9, found: 10 })
    );
}

#[test]
fn op_index_count_over_budget_is_out_of_range() {
    let mut b = Vec::new();
    put32(&mut b, 255);
    put32(&mut b, 6);
    assert_eq!(
        decode_op_index(&b, 0, 5).err(),
        Some(DecodeError::OutOfRange { offset: 4, low: 1, high: 5, found: 6 })
    );
}

#[test]
fn trie_block_with_operations() {
    let mut b = Vec::new();
    put32(&mut b, 1); // trie_max
    put32(&mut b, 1); // hyph_start
    put32(&mut b, 11);
    put32(&mut b, 12);
    put32(&mut b, 21);
    put32(&mut b, 22);
    put16(&mut b, 0x61);
    put16(&mut b, 0x62);
    put32(&mut b, 0x7F);
    put32(&mut b, 2); // trie_op_ptr
    for _ in 0..6 {
        put16(&mut b, 1);
    }
    put32(&mut b, 0);
    put32(&mut b, 2);
    let (t, end) = decode_trie(&b, 0).ok().unwrap();
    assert_eq!(end, b.len());
    assert_eq!(t.trl, vec![11, 12]);
    assert_eq!(t.tro, vec![21, 22]);
    assert_eq!(t.trc, vec![0x61, 0x62]);
    assert_eq!(t.hyf_next.len(), 2);
    assert_eq!((t.ops.op_start[0], t.ops.trie_used[0]), (0, 2));
}

#[test]
fn trie_start_above_trie_max_is_out_of_range() {
    let mut b = Vec::new();
    put32(&mut b, 0);
    put32(&mut b, 1);
    assert_eq!(
        decode_trie(&b, 0).err(),
        Some(DecodeError::OutOfRange { offset: 4, low: 0, high: 0, found: 1 })
    );
}

#[test]
fn scalar_reads_are_big_endian() {
    let b = [0xFF, 0xFF, 0xFF, 0xFE, 0x12, 0x34];
    assert_eq!(read_i32(&b, 0).ok(), Some((-2, 4)));
    assert_eq!(read_i16(&b, 4).ok(), Some((0x1234, 6)));
    assert_eq!(read_u16(&b, 0).ok(), Some((0xFFFF, 2)));
    assert_eq!(read_i16(&b, 0).ok(), Some((-1, 2)));
    assert_eq!(read_i32(&b, 4).err(), Some(DecodeError::Truncated { offset: 4, needed: 2 }));
    assert_eq!(
        ranged_i32(&b, 0, 0, 10).err(),
        Some(DecodeError::OutOfRange { offset: 0, low: 0, high: 10, found: -2 })
    );
}

#[test]
fn legacy_location_below_hash_base_is_out_of_range() {
    let mut b = minimal_dump();
    // After the header, the empty pool, the empty arena and the single run.
    let at = 28 + 4 + 8 + 10;
    b[at..at + 4].copy_from_slice(&0i32.to_be_bytes());
    assert_eq!(
        Format::parse(&b).err(),
        Some(DecodeError::OutOfRange { offset: at, low: HASH_BASE, high: 9541458, found: 0 })
    );
}

#[test]
fn category_code_above_fifteen_is_out_of_range() {
    let mut b = minimal_dump();
    // The single run's value field: after the header, pool, arena, count and command.
    let at = 28 + 4 + 8 + 4 + 2;
    b[at..at + 4].copy_from_slice(&16i32.to_be_bytes());
    assert_eq!(
        Format::parse(&b).err(),
        Some(DecodeError::OutOfRange { offset: 40, low: 0, high: 15, found: 16 })
    );
}
