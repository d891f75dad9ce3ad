//! Point lookup: the value one storage slot held at one historical block.
//!
//! One core algorithm with two branches. With the incarnation unknown
//! (given as 0) it runs a guarded linear scan over every incarnation group
//! of the address at that block. With the incarnation known it jumps
//! straight into the one duplicate-key group and uses the store's
//! value-sorted order inside the group. Either way the result is the value
//! of the first store entry that matches the lookup, or "not found" — a
//! normal result, never an error.

use crate::cursor::{entry_le, store_wf, CursorDupSort, CursorError};
use crate::layout::{
    decode_block_number, encode_block_number, lemma_block_field, spec_block_number_of,
    spec_encode_block_number, append_bytes, BLOCK_NUMBER_LENGTH, HASH_LENGTH, INCARNATION_LENGTH,
};
use crate::lex::{
    bytes_eq, is_prefix_of, lemma_le_unprefixed_blocks, lemma_lex_le_refl, lemma_lex_le_trans,
    lemma_prefix_le, lex_le,
};
use vstd::prelude::*;
use vstd::slice::slice_subrange;

verus! {

/// Entry `e` records a write of slot `slot` under address `addr` in block
/// `block`'s changeset. A nonzero `incarnation` must match the entry's
/// incarnation field exactly; zero means unknown and accepts any.
pub open spec fn entry_matches(
    e: (Seq<u8>, Seq<u8>),
    key_prefix_len: int,
    block: u64,
    addr: Seq<u8>,
    incarnation: u64,
    slot: Seq<u8>,
) -> bool {
    &&& e.0.take(BLOCK_NUMBER_LENGTH as int) == spec_encode_block_number(block)
    &&& e.0.subrange(BLOCK_NUMBER_LENGTH as int, BLOCK_NUMBER_LENGTH + key_prefix_len) == addr
    &&& (incarnation != 0 ==> e.0.skip(BLOCK_NUMBER_LENGTH + key_prefix_len)
        == spec_encode_block_number(incarnation))
    &&& e.1.take(HASH_LENGTH as int) == slot
}

/// The slot value a store entry carries: its store value past the slot hash.
pub open spec fn entry_value(e: (Seq<u8>, Seq<u8>)) -> Seq<u8> {
    e.1.skip(HASH_LENGTH as int)
}

/// `v` is the value of the first store entry matching the lookup.
pub open spec fn found_first(
    entries: Seq<(Seq<u8>, Seq<u8>)>,
    key_prefix_len: int,
    block: u64,
    addr: Seq<u8>,
    incarnation: u64,
    slot: Seq<u8>,
    v: Seq<u8>,
) -> bool {
    exists|i: int|
        0 <= i < entries.len() && #[trigger] entry_matches(
            entries[i],
            key_prefix_len,
            block,
            addr,
            incarnation,
            slot,
        ) && v == entry_value(entries[i]) && (forall|j: int|
            0 <= j < i ==> !entry_matches(
                #[trigger] entries[j],
                key_prefix_len,
                block,
                addr,
                incarnation,
                slot,
            ))
}

/// No store entry matches the lookup.
pub open spec fn no_match(
    entries: Seq<(Seq<u8>, Seq<u8>)>,
    key_prefix_len: int,
    block: u64,
    addr: Seq<u8>,
    incarnation: u64,
    slot: Seq<u8>,
) -> bool {
    forall|i: int|
        0 <= i < entries.len() ==> !entry_matches(
            #[trigger] entries[i],
            key_prefix_len,
            block,
            addr,
            incarnation,
            slot,
        )
}

/// What a completed lookup returns: `Some` exactly when a matching entry
/// exists, and then the value of the first one in store order.
pub open spec fn search_ok(
    entries: Seq<(Seq<u8>, Seq<u8>)>,
    key_prefix_len: int,
    block: u64,
    addr: Seq<u8>,
    incarnation: u64,
    slot: Seq<u8>,
    res: Option<Vec<u8>>,
) -> bool {
    &&& (res matches Some(v) ==> found_first(
        entries,
        key_prefix_len,
        block,
        addr,
        incarnation,
        slot,
        v@,
    ))
    &&& (res is None ==> no_match(entries, key_prefix_len, block, addr, incarnation, slot))
}

/// What the encoder writes is exactly what the point search matches: the
/// store pair encoded for changeset entry `addr ++ inc ++ slot` at `block`
/// answers a lookup precisely when the lookup names this block, this
/// address and this slot, with either this incarnation or an unknown one —
/// and the matched value is the value that was written.
pub proof fn lemma_encode_search_agree(
    block: u64,
    key_prefix_len: int,
    addr: Seq<u8>,
    inc: u64,
    slot: Seq<u8>,
    value: Seq<u8>,
    q_block: u64,
    q_addr: Seq<u8>,
    q_inc: u64,
    q_slot: Seq<u8>,
)
    requires
        addr.len() == key_prefix_len,
        q_addr.len() == key_prefix_len,
        slot.len() == HASH_LENGTH,
        q_slot.len() == HASH_LENGTH,
    ensures
        ({
            let e = crate::layout::spec_encode_pair(
                block,
                key_prefix_len,
                addr + spec_encode_block_number(inc) + slot,
                value,
            );
            &&& entry_value(e) == value
            &&& (entry_matches(e, key_prefix_len, q_block, q_addr, q_inc, q_slot) <==> (q_block
                == block && q_addr == addr && (q_inc == 0 || q_inc == inc) && q_slot == slot))
        }),
{
    let p = key_prefix_len;
    let key = addr + spec_encode_block_number(inc) + slot;
    let e = crate::layout::spec_encode_pair(block, p, key, value);
    assert(key.take(p + INCARNATION_LENGTH as int) =~= addr + spec_encode_block_number(inc));
    assert(key.skip(p + INCARNATION_LENGTH as int) =~= slot);
    assert(e.0 =~= spec_encode_block_number(block) + addr + spec_encode_block_number(inc));
    assert(e.1 =~= slot + value);
    assert(entry_value(e) =~= value);
    assert(e.0.take(BLOCK_NUMBER_LENGTH as int) =~= spec_encode_block_number(block));
    assert(e.0.subrange(BLOCK_NUMBER_LENGTH as int, BLOCK_NUMBER_LENGTH + p) =~= addr);
    assert(e.0.skip(BLOCK_NUMBER_LENGTH + p) =~= spec_encode_block_number(inc));
    assert(e.1.take(HASH_LENGTH as int) =~= slot);
    if entry_matches(e, p, q_block, q_addr, q_inc, q_slot) {
        crate::layout::lemma_block_number_roundtrip(block);
        crate::layout::lemma_block_number_roundtrip(q_block);
        assert(q_block == block);
        if q_inc != 0 {
            crate::layout::lemma_block_number_roundtrip(inc);
            crate::layout::lemma_block_number_roundtrip(q_inc);
            assert(q_inc == inc);
        }
    }
}

/// A key's block and address fields both match exactly when the key starts
/// with `BlockNumber ++ Address`.
proof fn lemma_match_prefix(k: Seq<u8>, key_prefix_len: int, block: u64, addr: Seq<u8>)
    requires
        key_prefix_len >= 0,
        addr.len() == key_prefix_len,
        k.len() >= 8 + key_prefix_len,
    ensures
        (k.take(8) == spec_encode_block_number(block) && k.subrange(8, 8 + key_prefix_len) == addr)
            <==> is_prefix_of(spec_encode_block_number(block) + addr, k),
{
    let q = spec_encode_block_number(block) + addr;
    if k.take(8) == spec_encode_block_number(block) && k.subrange(8, 8 + key_prefix_len) == addr {
        assert(k.take(q.len() as int) =~= q) by {
            assert(forall|i: int|
                0 <= i < 8 ==> #[trigger] k.take(q.len() as int)[i] == k.take(8)[i]);
            assert(forall|i: int|
                8 <= i < q.len() ==> #[trigger] k.take(q.len() as int)[i] == k.subrange(
                    8,
                    8 + key_prefix_len,
                )[i - 8]);
        }
    }
    if is_prefix_of(q, k) {
        assert(k.take(8) =~= spec_encode_block_number(block)) by {
            assert(forall|i: int|
                0 <= i < 8 ==> #[trigger] k.take(8)[i] == k.take(q.len() as int)[i]);
        }
        assert(k.subrange(8, 8 + key_prefix_len) =~= addr) by {
            assert(forall|i: int|
                0 <= i < key_prefix_len ==> #[trigger] k.subrange(8, 8 + key_prefix_len)[i]
                    == k.take(q.len() as int)[i + 8]);
        }
    }
}

/// A key's block, address and incarnation fields all match exactly when the
/// key is `BlockNumber ++ Address ++ Incarnation`, whole.
proof fn lemma_match_key_eq(k: Seq<u8>, key_prefix_len: int, block: u64, addr: Seq<u8>, inc: u64)
    requires
        key_prefix_len >= 0,
        addr.len() == key_prefix_len,
        k.len() == 8 + key_prefix_len + 8,
    ensures
        (k.take(8) == spec_encode_block_number(block) && k.subrange(8, 8 + key_prefix_len) == addr
            && k.skip(8 + key_prefix_len) == spec_encode_block_number(inc)) <==> k
            == spec_encode_block_number(block) + addr + spec_encode_block_number(inc),
{
    let q = spec_encode_block_number(block) + addr + spec_encode_block_number(inc);
    let p = key_prefix_len;
    if k.take(8) == spec_encode_block_number(block) && k.subrange(8, 8 + p) == addr && k.skip(8 + p)
        == spec_encode_block_number(inc) {
        assert(k =~= q) by {
            assert(forall|i: int| 0 <= i < 8 ==> k[i] == #[trigger] k.take(8)[i]);
            assert(forall|i: int|
                8 <= i < 8 + p ==> k[i] == #[trigger] k.subrange(8, 8 + p)[i - 8]);
            assert(forall|i: int|
                8 + p <= i < k.len() ==> k[i] == #[trigger] k.skip(8 + p)[i - 8 - p]);
        }
    }
    if k == q {
        assert(k.take(8) =~= spec_encode_block_number(block));
        assert(k.subrange(8, 8 + p) =~= addr);
        assert(k.skip(8 + p) =~= spec_encode_block_number(inc));
    }
}

/// The shared core of the point lookup, over already-parsed fields.
///
/// With `incarnation == 0`: a guarded linear scan from the first entry at or
/// above `BlockNumber ++ Address`, stopping as soon as an entry leaves that
/// block or that address. With a known incarnation: one seek into the
/// duplicate-key group of the exact store key, at the lowest value at or
/// above the slot hash; only an exact slot-hash head is a hit.
pub fn do_search_2<C: CursorDupSort>(
    c: &mut C,
    block_number: u64,
    key_prefix_len: usize,
    addr_bytes_to_find: &[u8],
    key_bytes_to_find: &[u8],
    incarnation: u64,
) -> (r: Result<Option<Vec<u8>>, CursorError>)
    requires
        store_wf(old(c).entries(), key_prefix_len as int),
        addr_bytes_to_find@.len() == key_prefix_len,
        key_bytes_to_find@.len() == HASH_LENGTH,
        key_prefix_len <= usize::MAX - BLOCK_NUMBER_LENGTH - INCARNATION_LENGTH,
    ensures
        final(c).entries() == old(c).entries(),
        (r matches Ok(res) ==> search_ok(
            old(c).entries(),
            key_prefix_len as int,
            block_number,
            addr_bytes_to_find@,
            incarnation,
            key_bytes_to_find@,
            res,
        )),
{
    let ghost entries = old(c).entries();
    let ghost p = key_prefix_len as int;
    let ghost addr = addr_bytes_to_find@;
    let ghost slot = key_bytes_to_find@;
    if incarnation == 0 {
        let mut seek_key = encode_block_number(block_number);
        append_bytes(&mut seek_key, addr_bytes_to_find);
        let ghost sk = spec_encode_block_number(block_number) + addr;
        assert(seek_key@ == sk);
        let (mut k, mut v) = match c.seek(seek_key.as_slice()) {
            Ok(pair) => pair,
            Err(e) => {
                return Err(e);
            },
        };
        proof {
            assert forall|j: int| 0 <= j < c.pos() implies !entry_matches(
                #[trigger] entries[j],
                p,
                block_number,
                addr,
                0u64,
                slot,
            ) by {
                if entry_matches(entries[j], p, block_number, addr, 0u64, slot) {
                    lemma_match_prefix(entries[j].0, p, block_number, addr);
                    lemma_prefix_le(sk, entries[j].0);
                }
            }
        }
        loop
            invariant
                entries == old(c).entries(),
                c.entries() == entries,
                store_wf(entries, p),
                incarnation == 0,
                addr == addr_bytes_to_find@,
                slot == key_bytes_to_find@,
                addr.len() == p,
                slot.len() == HASH_LENGTH,
                p == key_prefix_len,
                key_prefix_len <= usize::MAX - BLOCK_NUMBER_LENGTH - INCARNATION_LENGTH,
                sk == spec_encode_block_number(block_number) + addr,
                0 <= c.pos() <= entries.len(),
                c.pos() < entries.len() ==> (k@, v@) == entries[c.pos()] && lex_le(
                    sk,
                    entries[c.pos()].0,
                ),
                c.pos() == entries.len() ==> k@.len() == 0,
                forall|j: int|
                    0 <= j < c.pos() ==> !entry_matches(
                        #[trigger] entries[j],
                        p,
                        block_number,
                        addr,
                        0u64,
                        slot,
                    ),
            decreases entries.len() - c.pos(),
        {
            let ghost i = c.pos();
            if k.len() == 0 {
                proof {
                    if i < entries.len() {
                        assert(entries[i].0.len() == 8 + p + 8);
                        assert(false);
                    }
                }
                return Ok(None);
            }
            // the cursor stands on entry i
            proof {
                assert(i < entries.len());
                assert(k@.len() == 8 + p + 8);
            }
            let block_num = decode_block_number(k.as_slice());
            proof {
                lemma_block_field(k@, block_number);
            }
            let addr_part = slice_subrange(k.as_slice(), BLOCK_NUMBER_LENGTH,
                BLOCK_NUMBER_LENGTH + key_prefix_len);
            let addr_ok = bytes_eq(addr_part, addr_bytes_to_find);
            if block_num != block_number || !addr_ok {
                // the scan has left the target block or the target address;
                // no later entry can match either, the band of keys prefixed
                // by BlockNumber ++ Address is behind us
                proof {
                    lemma_match_prefix(k@, p, block_number, addr);
                    assert(!is_prefix_of(sk, k@));
                    assert forall|j: int| 0 <= j < entries.len() implies !entry_matches(
                        #[trigger] entries[j],
                        p,
                        block_number,
                        addr,
                        0u64,
                        slot,
                    ) by {
                        if j >= i && entry_matches(entries[j], p, block_number, addr, 0u64, slot) {
                            lemma_match_prefix(entries[j].0, p, block_number, addr);
                            if j > i {
                                assert(entry_le(entries[i], entries[j]));
                                if entries[i].0 == entries[j].0 {
                                    lemma_lex_le_refl(entries[i].0);
                                }
                                lemma_le_unprefixed_blocks(sk, k@, entries[j].0);
                            } else {
                                lemma_le_unprefixed_blocks(sk, k@, k@);
                            }
                        }
                    }
                }
                return Ok(None);
            }
            let slot_part = slice_subrange(v.as_slice(), 0, HASH_LENGTH);
            proof {
                assert(v@.subrange(0, HASH_LENGTH as int) == entries[i].1.take(HASH_LENGTH as int));
            }
            if bytes_eq(slot_part, key_bytes_to_find) {
                let out = crate::cursor::clone_bytes(slice_subrange(v.as_slice(), HASH_LENGTH,
                    v.len()));
                proof {
                    assert(entry_matches(entries[i], p, block_number, addr, 0u64, slot));
                    assert(out@ == entry_value(entries[i]));
                }
                return Ok(Some(out));
            }
            proof {
                assert(!entry_matches(entries[i], p, block_number, addr, 0u64, slot));
            }
            let (k2, v2) = match c.next() {
                Ok(pair) => pair,
                Err(e) => {
                    return Err(e);
                },
            };
            proof {
                if c.pos() < entries.len() {
                    assert(entry_le(entries[i], entries[c.pos()]));
                    if entries[i].0 == entries[c.pos()].0 {
                        lemma_lex_le_refl(entries[i].0);
                    }
                    lemma_lex_le_trans(sk, entries[i].0, entries[c.pos()].0);
                }
            }
            k = k2;
            v = v2;
        }
    } else {
        let mut seek_key = encode_block_number(block_number);
        append_bytes(&mut seek_key, addr_bytes_to_find);
        let inc_bytes = encode_block_number(incarnation);
        append_bytes(&mut seek_key, inc_bytes.as_slice());
        let ghost sk = spec_encode_block_number(block_number) + addr + spec_encode_block_number(
            incarnation,
        );
        assert(seek_key@ == sk);
        let (k, v) = match c.seek_both_range(seek_key.as_slice(), key_bytes_to_find) {
            Ok(pair) => pair,
            Err(e) => {
                return Err(e);
            },
        };
        let ghost i = c.pos();
        if k.len() == 0 {
            proof {
                if i < entries.len() {
                    assert(entries[i].0.len() == 8 + p + 8);
                    assert(false);
                }
                assert forall|j: int| 0 <= j < entries.len() implies !entry_matches(
                    #[trigger] entries[j],
                    p,
                    block_number,
                    addr,
                    incarnation,
                    slot,
                ) by {
                    if entry_matches(entries[j], p, block_number, addr, incarnation, slot) {
                        lemma_match_key_eq(entries[j].0, p, block_number, addr, incarnation);
                        lemma_prefix_le(slot, entries[j].1);
                    }
                }
            }
            return Ok(None);
        }
        proof {
            assert(i < entries.len());
            assert((k@, v@) == entries[i]);
        }
        let slot_part = slice_subrange(v.as_slice(), 0, HASH_LENGTH);
        proof {
            assert(v@.subrange(0, HASH_LENGTH as int) == entries[i].1.take(HASH_LENGTH as int));
        }
        if !bytes_eq(slot_part, key_bytes_to_find) {
            // the lowest value at or above the slot hash does not start with
            // it: nothing in this group records the slot, and no entry
            // outside the group carries this exact store key
            proof {
                assert forall|j: int| 0 <= j < entries.len() implies !entry_matches(
                    #[trigger] entries[j],
                    p,
                    block_number,
                    addr,
                    incarnation,
                    slot,
                ) by {
                    if entry_matches(entries[j], p, block_number, addr, incarnation, slot) {
                        lemma_match_key_eq(entries[j].0, p, block_number, addr, incarnation);
                        lemma_prefix_le(slot, entries[j].1);
                        if j > i {
                            assert(entry_le(entries[i], entries[j]));
                            lemma_le_unprefixed_blocks(slot, entries[i].1, entries[j].1);
                        } else if j == i {
                            assert(entries[i].1.take(HASH_LENGTH as int) != slot);
                        }
                    }
                }
            }
            return Ok(None);
        }
        let out = crate::cursor::clone_bytes(slice_subrange(v.as_slice(), HASH_LENGTH, v.len()));
        proof {
            lemma_match_key_eq(k@, p, block_number, addr, incarnation);
            assert(entry_matches(entries[i], p, block_number, addr, incarnation, slot));
            assert(out@ == entry_value(entries[i]));
            assert forall|j: int| 0 <= j < i implies !entry_matches(
                #[trigger] entries[j],
                p,
                block_number,
                addr,
                incarnation,
                slot,
            ) by {
                if entry_matches(entries[j], p, block_number, addr, incarnation, slot) {
                    lemma_match_key_eq(entries[j].0, p, block_number, addr, incarnation);
                    lemma_prefix_le(slot, entries[j].1);
                }
            }
        }
        Ok(Some(out))
    }
}

/// Point lookup with the lookup key handed over as one raw blob laid out as
/// `Address ++ Incarnation ++ SlotHash` from which the fields are read at
/// fixed offsets. An undersized blob is a caller-contract violation, ruled
/// out here rather than checked.
pub fn find_in_storage_changeset_2<C: CursorDupSort>(
    c: &mut C,
    block_number: u64,
    key_prefix_len: usize,
    k: &[u8],
) -> (r: Result<Option<Vec<u8>>, CursorError>)
    requires
        store_wf(old(c).entries(), key_prefix_len as int),
        k@.len() >= key_prefix_len + INCARNATION_LENGTH + HASH_LENGTH,
    ensures
        final(c).entries() == old(c).entries(),
        (r matches Ok(res) ==> search_ok(
            old(c).entries(),
            key_prefix_len as int,
            block_number,
            k@.subrange(0, key_prefix_len as int),
            spec_block_number_of(
                k@.subrange(key_prefix_len as int, key_prefix_len + INCARNATION_LENGTH),
            ),
            k@.subrange(
                key_prefix_len + INCARNATION_LENGTH,
                key_prefix_len + INCARNATION_LENGTH + HASH_LENGTH,
            ),
            res,
        )),
{
    let n = k.len();
    proof {
        // the blob is at least as long as its three fields, so the field
        // offsets fit in a machine word
        assert(key_prefix_len + INCARNATION_LENGTH + HASH_LENGTH <= n);
    }
    let addr_part = slice_subrange(k, 0, key_prefix_len);
    let inc_part = slice_subrange(k, key_prefix_len, key_prefix_len + INCARNATION_LENGTH);
    let slot_part = slice_subrange(k, key_prefix_len + INCARNATION_LENGTH,
        key_prefix_len + INCARNATION_LENGTH + HASH_LENGTH);
    let incarnation = decode_block_number(inc_part);
    do_search_2(c, block_number, key_prefix_len, addr_part, slot_part, incarnation)
}

/// Point lookup without a known incarnation: address and slot hash are given
/// directly, and every incarnation group of the address at that block is
/// scanned.
pub fn find_without_incarnation_in_storage_changeset_2<C: CursorDupSort>(
    c: &mut C,
    block_number: u64,
    key_prefix_len: usize,
    addr_bytes_to_find: &[u8],
    key_bytes_to_find: &[u8],
) -> (r: Result<Option<Vec<u8>>, CursorError>)
    requires
        store_wf(old(c).entries(), key_prefix_len as int),
        addr_bytes_to_find@.len() == key_prefix_len,
        key_bytes_to_find@.len() == HASH_LENGTH,
        key_prefix_len <= usize::MAX - BLOCK_NUMBER_LENGTH - INCARNATION_LENGTH,
    ensures
        final(c).entries() == old(c).entries(),
        (r matches Ok(res) ==> search_ok(
            old(c).entries(),
            key_prefix_len as int,
            block_number,
            addr_bytes_to_find@,
            0u64,
            key_bytes_to_find@,
            res,
        )),
{
    do_search_2(c, block_number, key_prefix_len, addr_bytes_to_find, key_bytes_to_find, 0)
}

} // verus!
