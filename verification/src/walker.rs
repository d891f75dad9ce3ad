//! Range walk: a streaming, pull-based scan of every changeset entry in a
//! block-number interval.
//!
//! `walk` seeks to the first entry of block `from` (block numbers lead the
//! store's sort order, so one block's entries are contiguous) and returns a
//! `RangeWalker`. Each `next_entry` call yields one decoded entry, in store
//! order, until the store is exhausted or an entry of a block past `to`
//! comes up; `to` is inclusive. The consumer may stop pulling at any point;
//! nothing already yielded is retracted, also not when a later pull fails.

use crate::cursor::{entry_le, store_wf, CursorDupSort, CursorError};
use crate::layout::{
    decode_storage, encode_block_number, lemma_block_number_extract, lemma_block_number_order,
    lemma_block_number_roundtrip, lemma_block_number_take, spec_block_number_of, spec_decode_key,
    spec_decode_value, spec_encode_block_number, BLOCK_NUMBER_LENGTH, HASH_LENGTH,
    INCARNATION_LENGTH,
};
use crate::lex::{
    is_prefix_of, lemma_lex_le_take, lemma_lex_le_total, lemma_prefix_le, lex_le,
};
use vstd::prelude::*;

verus! {

/// A key below the block-number seek prefix belongs to an earlier block.
proof fn lemma_below_from(key: Seq<u8>, from: u64)
    requires
        key.len() >= 8,
        !lex_le(spec_encode_block_number(from), key),
    ensures
        spec_block_number_of(key) < from,
{
    let f8 = spec_encode_block_number(from);
    lemma_lex_le_total(f8, key);
    lemma_lex_le_take(key, f8, 8);
    assert(f8.take(8) =~= f8);
    lemma_block_number_order(key.take(8), f8);
    lemma_block_number_take(key);
    lemma_block_number_roundtrip(from);
    if spec_block_number_of(key) == from {
        lemma_block_number_extract(key.take(8));
        assert(is_prefix_of(f8, key));
        lemma_prefix_le(f8, key);
        assert(false);
    }
}

/// A key at or above the block-number seek prefix belongs to that block or
/// a later one.
proof fn lemma_at_least_from(key: Seq<u8>, from: u64)
    requires
        key.len() >= 8,
        lex_le(spec_encode_block_number(from), key),
    ensures
        spec_block_number_of(key) >= from,
{
    let f8 = spec_encode_block_number(from);
    lemma_lex_le_take(f8, key, 8);
    assert(f8.take(8) =~= f8);
    lemma_block_number_order(f8, key.take(8));
    lemma_block_number_take(key);
    lemma_block_number_roundtrip(from);
}

/// Along the store order, block numbers never decrease.
proof fn lemma_blocks_monotone(a: (Seq<u8>, Seq<u8>), b: (Seq<u8>, Seq<u8>))
    requires
        a.0.len() >= 8,
        b.0.len() >= 8,
        entry_le(a, b),
    ensures
        spec_block_number_of(a.0) <= spec_block_number_of(b.0),
{
    if a.0 == b.0 {
    } else {
        lemma_lex_le_take(a.0, b.0, 8);
        lemma_block_number_order(a.0.take(8), b.0.take(8));
        lemma_block_number_take(a.0);
        lemma_block_number_take(b.0);
    }
}

/// `item` is store entry `e`, decoded: its block number, its logical
/// changeset key and the written value.
pub open spec fn decoded_item(item: (u64, Vec<u8>, Vec<u8>), e: (Seq<u8>, Seq<u8>)) -> bool {
    &&& item.0 == spec_block_number_of(e.0)
    &&& item.1@ == spec_decode_key(e.0, e.1)
    &&& item.2@ == spec_decode_value(e.1)
}

/// A walk in progress: the inclusive upper block bound, the address width,
/// the injected decode function, and the raw store pair the cursor stands
/// on (empty key once the store is exhausted). `done` is the explicit
/// exhaustion sentinel.
pub struct RangeWalker<Decoder> {
    pub to: u64,
    pub key_prefix_len: usize,
    pub decoder: Decoder,
    pub k: Vec<u8>,
    pub v: Vec<u8>,
    pub done: bool,
}

/// The decode function accepts every well-formed store pair of this address
/// width, and whatever it returns is that pair, decoded.
pub open spec fn decoder_ok<Decoder: Fn(&[u8], &[u8]) -> (u64, Vec<u8>, Vec<u8>)>(
    decoder: Decoder,
    key_prefix_len: int,
) -> bool {
    &&& (forall|kk: &[u8], vv: &[u8]|
        kk@.len() == BLOCK_NUMBER_LENGTH + key_prefix_len + INCARNATION_LENGTH && vv@.len()
            >= HASH_LENGTH ==> #[trigger] call_requires(decoder, (kk, vv)))
    &&& (forall|kk: &[u8], vv: &[u8], r: (u64, Vec<u8>, Vec<u8>)|
        #[trigger] call_ensures(decoder, (kk, vv), r) ==> decoded_item(r, (kk@, vv@)))
}

impl<Decoder: Fn(&[u8], &[u8]) -> (u64, Vec<u8>, Vec<u8>)> RangeWalker<Decoder> {
    /// The walker stands correctly over store content `entries` with its
    /// cursor at `pos`: its decoder decodes, and unless finished, the held
    /// pair is the entry at `pos`, or the sentinel at end-of-data.
    pub open spec fn wf(&self, entries: Seq<(Seq<u8>, Seq<u8>)>, pos: int) -> bool {
        &&& store_wf(entries, self.key_prefix_len as int)
        &&& decoder_ok(self.decoder, self.key_prefix_len as int)
        &&& (!self.done ==> {
            &&& 0 <= pos <= entries.len()
            &&& (pos < entries.len() ==> (self.k@, self.v@) == entries[pos])
            &&& (pos == entries.len() ==> self.k@.len() == 0)
        })
    }

    /// Pulls the next element of the range. `Ok(Some(..))` is the decoded
    /// entry the cursor stood on; `Ok(None)` ends the walk, at end-of-data
    /// or on the first entry of a block past `to` — that entry is not
    /// yielded. A store failure surfaces unchanged and finishes the walk;
    /// entries already yielded stand.
    pub fn next_entry<C: CursorDupSort>(&mut self, c: &mut C) -> (r: Result<
        Option<(u64, Vec<u8>, Vec<u8>)>,
        CursorError,
    >)
        requires
            old(self).wf(old(c).entries(), old(c).pos()),
        ensures
            final(c).entries() == old(c).entries(),
            final(self).to == old(self).to,
            final(self).key_prefix_len == old(self).key_prefix_len,
            final(self).wf(old(c).entries(), final(c).pos()),
            (r matches Ok(out) ==> {
                let entries = old(c).entries();
                let i = old(c).pos();
                if !old(self).done && i < entries.len() && spec_block_number_of(entries[i].0)
                    <= old(self).to {
                    &&& (out matches Some(item) && decoded_item(item, entries[i]))
                    &&& !final(self).done
                    &&& final(c).pos() == i + 1
                } else {
                    &&& out is None
                    &&& final(self).done
                    &&& final(c).pos() == i
                }
            }),
            (r is Err ==> final(self).done),
    {
        let ghost entries = c.entries();
        if self.done {
            return Ok(None);
        }
        if self.k.len() == 0 {
            self.done = true;
            proof {
                if c.pos() < entries.len() {
                    assert(entries[c.pos()].0.len() == BLOCK_NUMBER_LENGTH + self.key_prefix_len
                        + INCARNATION_LENGTH);
                    assert(false);
                }
            }
            return Ok(None);
        }
        proof {
            assert(c.pos() < entries.len());
            assert(entries[c.pos()].0.len() == BLOCK_NUMBER_LENGTH + self.key_prefix_len
                + INCARNATION_LENGTH);
            assert(entries[c.pos()].1.len() >= HASH_LENGTH);
        }
        let (block_num, dec_key, dec_val) = (self.decoder)(self.k.as_slice(), self.v.as_slice());
        if block_num > self.to {
            self.done = true;
            return Ok(None);
        }
        match c.next() {
            Ok(pair) => {
                self.k = pair.0;
                self.v = pair.1;
                Ok(Some((block_num, dec_key, dec_val)))
            },
            Err(e) => {
                self.done = true;
                Err(e)
            },
        }
    }
}

/// Starts a range walk at the first stored entry of a block at or above
/// `from`, handing back the walker primed on that entry. The decoded stream
/// then comes from `next_entry`, one element per pull, through the injected
/// decode function — `decode_storage` is the canonical one.
pub fn walk<C: CursorDupSort, Decoder: Fn(&[u8], &[u8]) -> (u64, Vec<u8>, Vec<u8>)>(
    c: &mut C,
    decoder: Decoder,
    key_prefix_len: usize,
    from: u64,
    to: u64,
) -> (r: Result<RangeWalker<Decoder>, CursorError>)
    requires
        store_wf(old(c).entries(), key_prefix_len as int),
        decoder_ok(decoder, key_prefix_len as int),
    ensures
        final(c).entries() == old(c).entries(),
        (r matches Ok(w) ==> {
            let entries = old(c).entries();
            let i = final(c).pos();
            &&& w.to == to
            &&& w.key_prefix_len == key_prefix_len
            &&& !w.done
            &&& w.wf(entries, i)
            &&& 0 <= i <= entries.len()
            &&& (forall|j: int|
                0 <= j < i ==> spec_block_number_of((#[trigger] entries[j]).0) < from)
            &&& (i < entries.len() ==> spec_block_number_of(entries[i].0) >= from)
        }),
{
    let ghost entries = old(c).entries();
    let seek_key = encode_block_number(from);
    let pair = match c.seek(seek_key.as_slice()) {
        Ok(p) => p,
        Err(e) => {
            return Err(e);
        },
    };
    let w = RangeWalker { to, key_prefix_len, decoder, k: pair.0, v: pair.1, done: false };
    proof {
        assert forall|j: int| 0 <= j < c.pos() implies spec_block_number_of(
            (#[trigger] entries[j]).0,
        ) < from by {
            assert(entries[j].0.len() == BLOCK_NUMBER_LENGTH + key_prefix_len
                + INCARNATION_LENGTH);
            lemma_below_from(entries[j].0, from);
        }
        if c.pos() < entries.len() {
            assert(entries[c.pos()].0.len() == BLOCK_NUMBER_LENGTH + key_prefix_len
                + INCARNATION_LENGTH);
            lemma_at_least_from(entries[c.pos()].0, from);
        }
    }
    Ok(w)
}

/// Runs one whole range walk and collects it.
///
/// The result is exactly the store's span of blocks `from ..= to`, decoded,
/// in store order: every entry before the span belongs to a block below
/// `from`, every entry after it to a block above `to` (`to` inclusive), and
/// the items are the span's entries one for one. On an empty store, or when
/// no block in the interval has entries, the result is empty. The walk runs
/// through the canonical decoder, `decode_storage`.
pub fn walk_collect<C: CursorDupSort>(c: &mut C, key_prefix_len: usize, from: u64, to: u64) -> (r:
    Result<Vec<(u64, Vec<u8>, Vec<u8>)>, CursorError>)
    requires
        store_wf(old(c).entries(), key_prefix_len as int),
    ensures
        final(c).entries() == old(c).entries(),
        (r matches Ok(items) ==> {
            let entries = old(c).entries();
            let i1 = final(c).pos();
            let i0 = i1 - items@.len();
            &&& 0 <= i0 <= i1 <= entries.len()
            &&& (forall|j: int|
                0 <= j < i0 ==> spec_block_number_of((#[trigger] entries[j]).0) < from)
            &&& (forall|j: int|
                i0 <= j < i1 ==> from <= spec_block_number_of((#[trigger] entries[j]).0) <= to)
            &&& (forall|j: int|
                i1 <= j < entries.len() ==> spec_block_number_of((#[trigger] entries[j]).0) > to)
            &&& (forall|j: int| i0 <= j < i1 ==> decoded_item(#[trigger] items@[j - i0], entries[j]))
        }),
{
    let ghost entries = old(c).entries();
    let mut w = match walk(c, decode_storage, key_prefix_len, from, to) {
        Ok(w) => w,
        Err(e) => {
            return Err(e);
        },
    };
    let ghost i0 = c.pos();
    let mut items: Vec<(u64, Vec<u8>, Vec<u8>)> = Vec::new();
    while !w.done
        invariant
            entries == old(c).entries(),
            c.entries() == entries,
            store_wf(entries, key_prefix_len as int),
            w.to == to,
            w.key_prefix_len == key_prefix_len,
            w.wf(entries, c.pos()),
            0 <= i0 <= c.pos() <= entries.len(),
            items@.len() == c.pos() - i0,
            forall|j: int| 0 <= j < i0 ==> spec_block_number_of((#[trigger] entries[j]).0) < from,
            forall|j: int|
                i0 <= j < c.pos() ==> from <= spec_block_number_of((#[trigger] entries[j]).0) <= to,
            forall|j: int| i0 <= j < c.pos() ==> decoded_item(#[trigger] items@[j - i0], entries[j]),
            c.pos() < entries.len() ==> spec_block_number_of(entries[c.pos()].0) >= from,
            w.done ==> c.pos() == entries.len() || spec_block_number_of(entries[c.pos()].0) > to,
        decreases (if w.done { 0int } else { 1int }), entries.len() - c.pos(),
    {
        let ghost i = c.pos();
        let step = w.next_entry(c);
        match step {
            Ok(out) => {
                match out {
                    Some(item) => {
                        proof {
                            assert(decoded_item(item, entries[i]));
                            assert(spec_block_number_of(entries[i].0) >= from);
                            if c.pos() < entries.len() {
                                assert(entries[i].0.len() == BLOCK_NUMBER_LENGTH + key_prefix_len
                                    + INCARNATION_LENGTH);
                                assert(entries[c.pos()].0.len() == BLOCK_NUMBER_LENGTH
                                    + key_prefix_len + INCARNATION_LENGTH);
                                assert(entry_le(entries[i], entries[c.pos()]));
                                lemma_blocks_monotone(entries[i], entries[c.pos()]);
                            }
                        }
                        items.push(item);
                    },
                    None => {
                    },
                }
            },
            Err(e) => {
                return Err(e);
            },
        }
    }
    proof {
        let i1 = c.pos();
        assert forall|j: int| i1 <= j < entries.len() implies spec_block_number_of(
            (#[trigger] entries[j]).0,
        ) > to by {
            assert(i1 < entries.len());
            assert(entries[i1].0.len() == BLOCK_NUMBER_LENGTH + key_prefix_len
                + INCARNATION_LENGTH);
            assert(entries[j].0.len() == BLOCK_NUMBER_LENGTH + key_prefix_len
                + INCARNATION_LENGTH);
            if j > i1 {
                assert(entry_le(entries[i1], entries[j]));
                lemma_blocks_monotone(entries[i1], entries[j]);
            }
        }
    }
    Ok(items)
}

} // verus!
