//! The hyphenation exception table: a fixed-capacity hash table with in-place
//! chaining, stored in the dump as a flat list of records.
use vstd::prelude::*;
use crate::base::{MAX_HALFWORD, MIN_HALFWORD};
use crate::reader::{
    agree, be_i32_at, lemma_i32_frame, ranged_err, ranged_i32, ranged_ok, read_i32, truncated, DecodeError,
};

verus! {

/// Number of slots of the exception table.
pub const HYPH_SIZE: usize = 8191;

/// Splits a packed record head into `(next, slot)`.
pub open spec fn unpack_spec(v: int) -> (int, int) {
    if v > 0xFFFF {
        (v / 0x10000, v - (v / 0x10000) * 0x10000)
    } else {
        (0, v)
    }
}

/// Splits a packed record head `v` into the chain link `next` and the slot
/// that the record fills: above `0xFFFF` the high half is the link.
pub fn unpack_hyph_head(v: i32) -> (r: (i32, i32))
    ensures
        r.0 == unpack_spec(v as int).0,
        r.1 == unpack_spec(v as int).1,
{
    if v > 0xFFFF {
        let next = v / 0x10000;
        (next, v - next * 0x10000)
    } else {
        (0, v)
    }
}

/// What one slot holds: `(link, word, list)`.
pub type SlotModel = (int, int, int);

/// The table after storing each record `(head, word, list)` in turn.
pub open spec fn hyph_slots(recs: Seq<(int, int, int)>) -> Seq<SlotModel>
    decreases recs.len(),
{
    if recs.len() == 0 {
        Seq::new(HYPH_SIZE as nat, |i: int| (0, 0, 0))
    } else {
        let prev = hyph_slots(recs.drop_last());
        let (v, w, l) = recs.last();
        let (next, slot) = unpack_spec(v);
        prev.update(slot, (next, w, l))
    }
}

/// The record at byte offset `p`: `(head, word, list)`.
pub open spec fn record_at(s: Seq<u8>, p: int) -> (int, int, int) {
    (be_i32_at(s, p), be_i32_at(s, p + 4), be_i32_at(s, p + 8))
}

/// The first `n` records of the list that starts at `p`.
pub open spec fn records_at(s: Seq<u8>, p: int, n: nat) -> Seq<(int, int, int)> {
    Seq::new(n, |k: int| record_at(s, p + 12 * k))
}

pub open spec fn slot_ok(s: Seq<u8>, p: int) -> bool {
    p + 4 <= s.len() && 0 <= unpack_spec(be_i32_at(s, p)).1 < HYPH_SIZE
}

/// Whether the record at `p` is present and each of its fields in bounds.
pub open spec fn record_ok(s: Seq<u8>, p: int, max_word: i32) -> bool {
    slot_ok(s, p) && ranged_ok(s, p + 4, 0, max_word) && ranged_ok(s, p + 8, MIN_HALFWORD, MAX_HALFWORD)
}

/// The failure for a record at `p` that is not `record_ok`.
pub open spec fn record_err(s: Seq<u8>, p: int, max_word: i32) -> DecodeError {
    if p + 4 > s.len() {
        truncated(s, p, 4)
    } else if !slot_ok(s, p) {
        DecodeError::OutOfRange {
            offset: p as usize,
            low: 0,
            high: (HYPH_SIZE - 1) as i32,
            found: unpack_spec(be_i32_at(s, p)).1 as i32,
        }
    } else if !ranged_ok(s, p + 4, 0, max_word) {
        ranged_err(s, p + 4, 0, max_word)
    } else {
        ranged_err(s, p + 8, MIN_HALFWORD, MAX_HALFWORD)
    }
}

/// Number of records that a count field announces.
pub open spec fn record_count(c: int) -> nat {
    if c < 0 { 0 } else { c as nat }
}

proof fn lemma_records_step(s: Seq<u8>, start: int, i: nat)
    ensures
        hyph_slots(records_at(s, start, i + 1)) == hyph_slots(records_at(s, start, i)).update(
            unpack_spec(be_i32_at(s, start + 12 * i)).1,
            (
                unpack_spec(be_i32_at(s, start + 12 * i)).0,
                be_i32_at(s, start + 12 * i + 4),
                be_i32_at(s, start + 12 * i + 8),
            ),
        ),
{
    let recs = records_at(s, start, i + 1);
    assert(recs.drop_last() =~= records_at(s, start, i));
}

/// Where an exception block at `p` ends, if it is well formed.
pub open spec fn hyph_span(s: Seq<u8>, p: int, max_word: i32) -> Option<int> {
    let n = record_count(be_i32_at(s, p));
    if p + 8 <= s.len() && forall|k: int| 0 <= k < n ==> #[trigger] record_ok(s, p + 8 + 12 * k, max_word) {
        Some(p + 8 + 12 * n)
    } else {
        None
    }
}

/// The decoded exception table: three parallel arrays of `HYPH_SIZE` slots.
pub struct HyphExceptions {
    pub link: Vec<u16>,
    pub word: Vec<i32>,
    pub list: Vec<i32>,
}

impl HyphExceptions {
    pub open spec fn wf(&self) -> bool {
        self.link@.len() == HYPH_SIZE && self.word@.len() == HYPH_SIZE && self.list@.len() == HYPH_SIZE
    }

    pub open spec fn view(&self) -> Seq<SlotModel> {
        Seq::new(
            HYPH_SIZE as nat,
            |i: int| (self.link@[i] as int, self.word@[i] as int, self.list@[i] as int),
        )
    }
}

/// Decodes the exception block at `pos`: a record count, the next free
/// overflow slot (read and discarded), then the records. Each record is a
/// packed head (see `unpack_hyph_head`), a string id in `[0, max_word]` and a
/// memory pointer in `[MIN_HALFWORD, MAX_HALFWORD]`; the slot it names must
/// index the table. Later records overwrite earlier ones in the same slot.
pub fn decode_hyph_exceptions(input: &[u8], pos: usize, max_word: i32) -> (r: Result<
    (HyphExceptions, usize),
    DecodeError,
>)
    requires
        pos <= input@.len(),
    ensures
        match r {
            Ok((h, e)) => {
                let n = record_count(be_i32_at(input@, pos as int));
                &&& pos + 8 <= input@.len()
                &&& forall|k: int| 0 <= k < n ==> #[trigger] record_ok(input@, pos + 8 + 12 * k, max_word)
                &&& e == pos + 8 + 12 * n
                &&& e <= input@.len()
                &&& h.wf()
                &&& h@ == hyph_slots(records_at(input@, pos + 8, n))
                &&& hyph_span(input@, pos as int, max_word) == Some(e as int)
            },
            Err(err) => hyph_span(input@, pos as int, max_word) is None && if pos + 4 > input@.len() {
                err == truncated(input@, pos as int, 4)
            } else if pos + 8 > input@.len() {
                err == truncated(input@, pos + 4, 4)
            } else {
                exists|k: int|
                    0 <= k < record_count(be_i32_at(input@, pos as int)) && (forall|i: int|
                        0 <= i < k ==> #[trigger] record_ok(input@, pos + 8 + 12 * i, max_word))
                        && !record_ok(input@, pos + 8 + 12 * k, max_word) && err
                        == #[trigger] record_err(input@, pos + 8 + 12 * k, max_word)
            },
        },
{
    let (count, p) = read_i32(input, pos)?;
    let (_next_free, p) = read_i32(input, p)?;
    let n: usize = if count < 0 { 0 } else { count as usize };
    let mut link: Vec<u16> = vec![0u16; HYPH_SIZE];
    let mut word: Vec<i32> = vec![0i32; HYPH_SIZE];
    let mut list: Vec<i32> = vec![0i32; HYPH_SIZE];
    let ghost s = input@;
    let ghost start = pos + 8;
    let mut p: usize = p;
    let mut i: usize = 0;
    while i < n
        invariant
            start <= p <= s.len(),
            s == input@,
            start == pos + 8,
            n == record_count(be_i32_at(s, pos as int)),
            p == start + 12 * i,
            i <= n,
            link@.len() == HYPH_SIZE,
            word@.len() == HYPH_SIZE,
            list@.len() == HYPH_SIZE,
            forall|k: int| 0 <= k < i ==> #[trigger] record_ok(s, start + 12 * k, max_word),
            (HyphExceptions { link: link, word: word, list: list })@ == hyph_slots(records_at(s, start, i as nat)),
        decreases n - i,
    {
        let (head, q) = match read_i32(input, p) {
            Ok(x) => x,
            Err(err) => {
                assert(record_err(s, start + 12 * i, max_word) == err);
                assert(!record_ok(s, pos + 8 + 12 * i, max_word));
                return Err(err);
            },
        };
        let (next, slot) = unpack_hyph_head(head);
        if slot < 0 || slot >= HYPH_SIZE as i32 {
            let err = DecodeError::OutOfRange { offset: p, low: 0, high: (HYPH_SIZE - 1) as i32, found: slot };
            assert(record_err(s, start + 12 * i, max_word) == err);
            assert(!record_ok(s, pos + 8 + 12 * i, max_word));
            return Err(err);
        }
        let (w, q) = match ranged_i32(input, q, 0, max_word) {
            Ok(x) => x,
            Err(err) => {
                assert(record_err(s, start + 12 * i, max_word) == err);
                assert(!record_ok(s, pos + 8 + 12 * i, max_word));
                return Err(err);
            },
        };
        let (l, q) = match ranged_i32(input, q, MIN_HALFWORD, MAX_HALFWORD) {
            Ok(x) => x,
            Err(err) => {
                assert(record_err(s, start + 12 * i, max_word) == err);
                assert(!record_ok(s, pos + 8 + 12 * i, max_word));
                return Err(err);
            },
        };
        let ghost before = (HyphExceptions { link: link, word: word, list: list })@;
        link.set(slot as usize, next as u16);
        word.set(slot as usize, w);
        list.set(slot as usize, l);
        proof {
            assert(record_ok(s, start + 12 * i, max_word));
            lemma_records_step(s, start, i as nat);
            assert((HyphExceptions { link: link, word: word, list: list })@ =~= before.update(
                slot as int,
                (next as int, w as int, l as int),
            ));
        }
        p = q;
        i = i + 1;
    }
    Ok((HyphExceptions { link, word, list }, p))
}

/// How a writer packs a chain link and a slot into a record head.
pub open spec fn pack_spec(next: int, slot: int) -> int {
    if next > 0 { next * 0x10000 + slot } else { slot }
}

/// Entries `(next, slot, word, list)` with links that fit 15 bits and
/// distinct slots of the table.
pub open spec fn entries_valid(es: Seq<(int, int, int, int)>) -> bool {
    &&& forall|i: int| 0 <= i < es.len() ==> 0 <= #[trigger] es[i].0 < 0x8000 && 0 <= es[i].1 < HYPH_SIZE
    &&& forall|i: int, j: int| 0 <= i < j < es.len() ==> #[trigger] es[i].1 != #[trigger] es[j].1
}

/// The record list a writer emits for the entries.
pub open spec fn encode_entries(es: Seq<(int, int, int, int)>) -> Seq<(int, int, int)> {
    Seq::new(es.len(), |i: int| (pack_spec(es[i].0, es[i].1), es[i].2, es[i].3))
}

/// Unpacking a head undoes packing it.
pub proof fn lemma_unpack_pack(next: int, slot: int)
    requires
        0 <= next < 0x8000,
        0 <= slot < 0x10000,
    ensures
        unpack_spec(pack_spec(next, slot)) == (next, slot),
{
    if next > 0 {
        vstd::arithmetic::div_mod::lemma_fundamental_div_mod_converse(next * 0x10000 + slot, 0x10000, next, slot);
    }
}

/// Storing the records of distinct-slot entries gives each entry's slot
/// exactly its `(next, word, list)`, and leaves every other slot empty.
pub proof fn lemma_hyph_round_trip(es: Seq<(int, int, int, int)>)
    requires
        entries_valid(es),
    ensures
        hyph_slots(encode_entries(es)).len() == HYPH_SIZE,
        forall|i: int| 0 <= i < es.len() ==> hyph_slots(encode_entries(es))[#[trigger] es[i].1] == (es[i].0, es[i].2, es[i].3),
        forall|slot: int|
            0 <= slot < HYPH_SIZE && (forall|i: int| 0 <= i < es.len() ==> #[trigger] es[i].1 != slot)
                ==> hyph_slots(encode_entries(es))[slot] == (0int, 0int, 0int),
    decreases es.len(),
{
    let recs = encode_entries(es);
    if es.len() == 0 {
        assert(recs.len() == 0);
    } else {
        let prev = es.drop_last();
        assert(entries_valid(prev)) by {
            assert forall|i: int, j: int| 0 <= i < j < prev.len() implies #[trigger] prev[i].1 != #[trigger] prev[j].1 by {
                assert(es[i].1 != es[j].1);
            }
        }
        lemma_hyph_round_trip(prev);
        assert(recs.drop_last() =~= encode_entries(prev));
        let n = es.len() - 1;
        let last = es[n];
        lemma_unpack_pack(last.0, last.1);
        assert(recs.last() == (pack_spec(last.0, last.1), last.2, last.3));
        assert forall|i: int| 0 <= i < es.len() implies hyph_slots(recs)[#[trigger] es[i].1] == (es[i].0, es[i].2, es[i].3) by {
            if i < n {
                assert(es[i].1 != es[n].1);
                assert(prev[i] == es[i]);
            }
        }
        assert forall|slot: int|
            0 <= slot < HYPH_SIZE && (forall|i: int| 0 <= i < es.len() ==> #[trigger] es[i].1 != slot)
            implies hyph_slots(recs)[slot] == (0int, 0int, 0int) by {
            assert(es[n].1 != slot);
            assert forall|i: int| 0 <= i < prev.len() implies #[trigger] prev[i].1 != slot by {
                assert(prev[i] == es[i]);
            }
        }
    }
}

/// An exception block reads the same in inputs that agree up to its end.
pub proof fn lemma_hyph_frame(s: Seq<u8>, t: Seq<u8>, lim: int, p: int, max_word: i32)
    requires
        agree(s, t, lim),
        0 <= p,
        hyph_span(s, p, max_word) is Some,
        hyph_span(s, p, max_word).unwrap() <= lim,
    ensures
        hyph_span(t, p, max_word) == hyph_span(s, p, max_word),
{
    lemma_i32_frame(s, t, lim, p);
    let n = record_count(be_i32_at(s, p));
    assert forall|k: int| 0 <= k < n implies #[trigger] record_ok(t, p + 8 + 12 * k, max_word) by {
        assert(record_ok(s, p + 8 + 12 * k, max_word));
        lemma_i32_frame(s, t, lim, p + 8 + 12 * k);
        lemma_i32_frame(s, t, lim, p + 12 + 12 * k);
        lemma_i32_frame(s, t, lim, p + 16 + 12 * k);
    }
}

/// An exception block ends past its first eight bytes.
pub proof fn lemma_hyph_mono(s: Seq<u8>, p: int, max_word: i32)
    requires
        hyph_span(s, p, max_word) is Some,
    ensures
        p + 8 <= hyph_span(s, p, max_word).unwrap(),
{
}

} // verus!
