//! Layout codec: the byte-level split between the store's primary key and
//! its value, and the exact inverse.
//!
//! A logical changeset key is `Address ++ Incarnation ++ SlotHash`. On disk
//! it is split: the store key is `BlockNumber (8 bytes, big-endian) ++
//! Address ++ Incarnation`, and the store value is `SlotHash ++ SlotValue`.
//! The split point is `key_prefix_len + INCARNATION_LENGTH`, where
//! `key_prefix_len` is the address width.

use vstd::prelude::*;
use vstd::slice::slice_subrange;

verus! {

pub const BLOCK_NUMBER_LENGTH: usize = 8;

pub const INCARNATION_LENGTH: usize = 8;

pub const HASH_LENGTH: usize = 32;

/// The 8 big-endian bytes of a block number.
pub open spec fn spec_encode_block_number(b: u64) -> Seq<u8> {
    seq![
        ((b >> 56) & 0xff) as u8,
        ((b >> 48) & 0xff) as u8,
        ((b >> 40) & 0xff) as u8,
        ((b >> 32) & 0xff) as u8,
        ((b >> 24) & 0xff) as u8,
        ((b >> 16) & 0xff) as u8,
        ((b >> 8) & 0xff) as u8,
        (b & 0xff) as u8,
    ]
}

/// The block number held in the first 8 bytes of a store key.
pub open spec fn spec_block_number_of(s: Seq<u8>) -> u64
    recommends
        s.len() >= 8,
{
    ((s[0] as u64) << 56) | ((s[1] as u64) << 48) | ((s[2] as u64) << 40) | ((s[3] as u64) << 32)
        | ((s[4] as u64) << 24) | ((s[5] as u64) << 16) | ((s[6] as u64) << 8) | (s[7] as u64)
}

/// Encoding a block number and reading it back is the identity.
pub proof fn lemma_block_number_roundtrip(b: u64)
    ensures
        spec_block_number_of(spec_encode_block_number(b)) == b,
{
    assert((((((b >> 56) & 0xff) as u8) as u64) << 56) | (((((b >> 48) & 0xff) as u8) as u64)
        << 48) | (((((b >> 40) & 0xff) as u8) as u64) << 40) | (((((b >> 32) & 0xff) as u8) as u64)
        << 32) | (((((b >> 24) & 0xff) as u8) as u64) << 24) | (((((b >> 16) & 0xff) as u8) as u64)
        << 16) | (((((b >> 8) & 0xff) as u8) as u64) << 8) | (((b & 0xff) as u8) as u64) == b)
        by (bit_vector);
}

/// Any 8 bytes are recovered exactly from the block number they spell.
pub proof fn lemma_block_number_extract(s: Seq<u8>)
    requires
        s.len() == 8,
    ensures
        spec_encode_block_number(spec_block_number_of(s)) == s,
{
    let x0 = s[0];
    let x1 = s[1];
    let x2 = s[2];
    let x3 = s[3];
    let x4 = s[4];
    let x5 = s[5];
    let x6 = s[6];
    let x7 = s[7];
    let b = spec_block_number_of(s);
    assert(b == ((x0 as u64) << 56) | ((x1 as u64) << 48) | ((x2 as u64) << 40) | ((x3 as u64)
        << 32) | ((x4 as u64) << 24) | ((x5 as u64) << 16) | ((x6 as u64) << 8) | (x7 as u64));
    assert({
        let c = ((x0 as u64) << 56) | ((x1 as u64) << 48) | ((x2 as u64) << 40) | ((x3 as u64)
            << 32) | ((x4 as u64) << 24) | ((x5 as u64) << 16) | ((x6 as u64) << 8) | (x7 as u64);
        ((c >> 56) & 0xff) as u8 == x0 && ((c >> 48) & 0xff) as u8 == x1 && ((c >> 40) & 0xff) as u8
            == x2 && ((c >> 32) & 0xff) as u8 == x3 && ((c >> 24) & 0xff) as u8 == x4 && ((c >> 16)
            & 0xff) as u8 == x5 && ((c >> 8) & 0xff) as u8 == x6 && (c & 0xff) as u8 == x7
    }) by (bit_vector);
    assert(spec_encode_block_number(b) =~= s);
}

/// Big-endian encoding is order-preserving: comparing two 8-byte block
/// prefixes lexicographically is comparing the block numbers they spell.
pub proof fn lemma_block_number_order(s: Seq<u8>, t: Seq<u8>)
    requires
        s.len() == 8,
        t.len() == 8,
    ensures
        crate::lex::lex_le(s, t) <==> spec_block_number_of(s) <= spec_block_number_of(t),
{
    let x0 = s[0];
    let x1 = s[1];
    let x2 = s[2];
    let x3 = s[3];
    let x4 = s[4];
    let x5 = s[5];
    let x6 = s[6];
    let x7 = s[7];
    let y0 = t[0];
    let y1 = t[1];
    let y2 = t[2];
    let y3 = t[3];
    let y4 = t[4];
    let y5 = t[5];
    let y6 = t[6];
    let y7 = t[7];
    let s1 = s.skip(1);
    let t1 = t.skip(1);
    let s2 = s1.skip(1);
    let t2 = t1.skip(1);
    let s3 = s2.skip(1);
    let t3 = t2.skip(1);
    let s4 = s3.skip(1);
    let t4 = t3.skip(1);
    let s5 = s4.skip(1);
    let t5 = t4.skip(1);
    let s6 = s5.skip(1);
    let t6 = t5.skip(1);
    let s7 = s6.skip(1);
    let t7 = t6.skip(1);
    assert(s7.len() == 1 && t7.len() == 1);
    assert(s1[0] == x1 && s2[0] == x2 && s3[0] == x3 && s4[0] == x4 && s5[0] == x5 && s6[0] == x6
        && s7[0] == x7);
    assert(t1[0] == y1 && t2[0] == y2 && t3[0] == y3 && t4[0] == y4 && t5[0] == y5 && t6[0] == y6
        && t7[0] == y7);
    assert(s7.skip(1).len() == 0 && t7.skip(1).len() == 0);
    assert(crate::lex::lex_le(s7.skip(1), t7.skip(1)));
    assert(crate::lex::lex_le(s7, t7) == (x7 <= y7));
    assert(crate::lex::lex_le(s6, t6) == (x6 < y6 || (x6 == y6 && x7 <= y7)));
    assert(crate::lex::lex_le(s5, t5) == (x5 < y5 || (x5 == y5 && (x6 < y6 || (x6 == y6 && x7
        <= y7)))));
    assert(crate::lex::lex_le(s4, t4) == (x4 < y4 || (x4 == y4 && (x5 < y5 || (x5 == y5 && (x6 < y6
        || (x6 == y6 && x7 <= y7)))))));
    assert(crate::lex::lex_le(s3, t3) == (x3 < y3 || (x3 == y3 && (x4 < y4 || (x4 == y4 && (x5 < y5
        || (x5 == y5 && (x6 < y6 || (x6 == y6 && x7 <= y7)))))))));
    assert(crate::lex::lex_le(s2, t2) == (x2 < y2 || (x2 == y2 && (x3 < y3 || (x3 == y3 && (x4 < y4
        || (x4 == y4 && (x5 < y5 || (x5 == y5 && (x6 < y6 || (x6 == y6 && x7 <= y7)))))))))));
    assert(crate::lex::lex_le(s1, t1) == (x1 < y1 || (x1 == y1 && (x2 < y2 || (x2 == y2 && (x3 < y3
        || (x3 == y3 && (x4 < y4 || (x4 == y4 && (x5 < y5 || (x5 == y5 && (x6 < y6 || (x6 == y6
        && x7 <= y7)))))))))))));
    assert(crate::lex::lex_le(s, t) == (x0 < y0 || (x0 == y0 && (x1 < y1 || (x1 == y1 && (x2 < y2
        || (x2 == y2 && (x3 < y3 || (x3 == y3 && (x4 < y4 || (x4 == y4 && (x5 < y5 || (x5 == y5
        && (x6 < y6 || (x6 == y6 && x7 <= y7)))))))))))))));
    assert((x0 < y0 || (x0 == y0 && (x1 < y1 || (x1 == y1 && (x2 < y2 || (x2 == y2 && (x3 < y3 || (
    x3 == y3 && (x4 < y4 || (x4 == y4 && (x5 < y5 || (x5 == y5 && (x6 < y6 || (x6 == y6 && x7
        <= y7)))))))))))))) <==> (((x0 as u64) << 56) | ((x1 as u64) << 48) | ((x2 as u64) << 40)
        | ((x3 as u64) << 32) | ((x4 as u64) << 24) | ((x5 as u64) << 16) | ((x6 as u64) << 8) | (
    x7 as u64)) <= (((y0 as u64) << 56) | ((y1 as u64) << 48) | ((y2 as u64) << 40) | ((y3 as u64)
        << 32) | ((y4 as u64) << 24) | ((y5 as u64) << 16) | ((y6 as u64) << 8) | (y7 as u64)))
        by (bit_vector);
}

/// Only the first 8 bytes decide the decoded block number.
pub proof fn lemma_block_number_take(k: Seq<u8>)
    requires
        k.len() >= 8,
    ensures
        spec_block_number_of(k.take(8)) == spec_block_number_of(k),
{
    assert(k.take(8)[0] == k[0] && k.take(8)[1] == k[1] && k.take(8)[2] == k[2] && k.take(8)[3]
        == k[3] && k.take(8)[4] == k[4] && k.take(8)[5] == k[5] && k.take(8)[6] == k[6]
        && k.take(8)[7] == k[7]);
}

/// A store key's first 8 bytes spell `block` exactly when its decoded block
/// number is `block`.
pub proof fn lemma_block_field(k: Seq<u8>, block: u64)
    requires
        k.len() >= 8,
    ensures
        (spec_block_number_of(k) == block) <==> (k.take(8) == spec_encode_block_number(block)),
{
    assert(spec_block_number_of(k.take(8)) == spec_block_number_of(k)) by {
        assert(k.take(8)[0] == k[0] && k.take(8)[1] == k[1] && k.take(8)[2] == k[2] && k.take(8)[3]
            == k[3] && k.take(8)[4] == k[4] && k.take(8)[5] == k[5] && k.take(8)[6] == k[6]
            && k.take(8)[7] == k[7]);
    }
    lemma_block_number_extract(k.take(8));
    lemma_block_number_roundtrip(block);
}

/// Big-endian block number, as stored at the front of every store key.
pub fn encode_block_number(block: u64) -> (r: Vec<u8>)
    ensures
        r@ == spec_encode_block_number(block),
        r@.len() == 8,
{
    proof {
        assert((block >> 56) & 0xff < 256 && (block >> 48) & 0xff < 256 && (block >> 40) & 0xff
            < 256 && (block >> 32) & 0xff < 256 && (block >> 24) & 0xff < 256 && (block >> 16)
            & 0xff < 256 && (block >> 8) & 0xff < 256 && block & 0xff < 256) by (bit_vector);
    }
    let mut v: Vec<u8> = Vec::new();
    v.push(((block >> 56) & 0xff) as u8);
    v.push(((block >> 48) & 0xff) as u8);
    v.push(((block >> 40) & 0xff) as u8);
    v.push(((block >> 32) & 0xff) as u8);
    v.push(((block >> 24) & 0xff) as u8);
    v.push(((block >> 16) & 0xff) as u8);
    v.push(((block >> 8) & 0xff) as u8);
    v.push((block & 0xff) as u8);
    proof {
        assert(v@ =~= spec_encode_block_number(block));
    }
    v
}

/// Reads the big-endian block number out of the first 8 bytes.
pub fn decode_block_number(s: &[u8]) -> (r: u64)
    requires
        s@.len() >= 8,
    ensures
        r == spec_block_number_of(s@),
{
    ((s[0] as u64) << 56) | ((s[1] as u64) << 48) | ((s[2] as u64) << 40) | ((s[3] as u64) << 32)
        | ((s[4] as u64) << 24) | ((s[5] as u64) << 16) | ((s[6] as u64) << 8) | (s[7] as u64)
}

/// Appends all of `src` to `dst`.
pub fn append_bytes(dst: &mut Vec<u8>, src: &[u8])
    ensures
        final(dst)@ == old(dst)@ + src@,
{
    let mut i: usize = 0;
    while i < src.len()
        invariant
            i <= src@.len(),
            dst@ == old(dst)@ + src@.take(i as int),
        decreases src@.len() - i,
    {
        dst.push(src[i]);
        proof {
            assert(old(dst)@ + src@.take(i as int) + seq![src@[i as int]] =~= old(dst)@ + src@.take(
                i + 1,
            ));
        }
        i = i + 1;
    }
    proof {
        assert(src@.take(src@.len() as int) =~= src@);
    }
}

/// The on-disk pair for one changeset entry: the store key is
/// `BlockNumber ++ Address ++ Incarnation`, the store value is
/// `SlotHash ++ SlotValue`.
pub open spec fn spec_encode_pair(
    block: u64,
    key_prefix_len: int,
    key: Seq<u8>,
    value: Seq<u8>,
) -> (Seq<u8>, Seq<u8>)
    recommends
        key.len() >= key_prefix_len + INCARNATION_LENGTH + HASH_LENGTH,
{
    (
        spec_encode_block_number(block) + key.take(key_prefix_len + INCARNATION_LENGTH as int),
        key.skip(key_prefix_len + INCARNATION_LENGTH as int) + value,
    )
}

/// The logical changeset key read back from one on-disk pair: everything of
/// the store key after the block number, then the slot hash at the head of
/// the store value.
pub open spec fn spec_decode_key(k: Seq<u8>, v: Seq<u8>) -> Seq<u8>
    recommends
        k.len() >= BLOCK_NUMBER_LENGTH,
        v.len() >= HASH_LENGTH,
{
    k.skip(BLOCK_NUMBER_LENGTH as int) + v.take(HASH_LENGTH as int)
}

/// The written slot value read back from one on-disk pair: everything of the
/// store value after the slot hash.
pub open spec fn spec_decode_value(v: Seq<u8>) -> Seq<u8>
    recommends
        v.len() >= HASH_LENGTH,
{
    v.skip(HASH_LENGTH as int)
}

/// Decoding is the exact inverse of encoding, for every well-formed key:
/// the codec loses nothing.
pub proof fn lemma_storage_round_trip(block: u64, key_prefix_len: int, key: Seq<u8>, value: Seq<u8>)
    requires
        0 <= key_prefix_len,
        key.len() == key_prefix_len + INCARNATION_LENGTH + HASH_LENGTH,
    ensures
        spec_block_number_of(spec_encode_pair(block, key_prefix_len, key, value).0) == block,
        spec_decode_key(
            spec_encode_pair(block, key_prefix_len, key, value).0,
            spec_encode_pair(block, key_prefix_len, key, value).1,
        ) == key,
        spec_decode_value(spec_encode_pair(block, key_prefix_len, key, value).1) == value,
{
    let split = key_prefix_len + INCARNATION_LENGTH as int;
    let sk = spec_encode_pair(block, key_prefix_len, key, value).0;
    let sv = spec_encode_pair(block, key_prefix_len, key, value).1;
    lemma_block_number_roundtrip(block);
    assert(spec_block_number_of(sk) == block) by {
        let e = spec_encode_block_number(block);
        assert(sk[0] == e[0] && sk[1] == e[1] && sk[2] == e[2] && sk[3] == e[3] && sk[4] == e[4]
            && sk[5] == e[5] && sk[6] == e[6] && sk[7] == e[7]);
    }
    assert(sk.skip(8) =~= key.take(split));
    assert(sv.take(32) =~= key.skip(split));
    assert(key.take(split) + key.skip(split) =~= key);
    assert(sv.skip(32) =~= value);
}

/// Reads one on-disk pair back into its decoded form: the block number,
/// the logical changeset key and the written slot value. The exact inverse
/// of the encoding, as `lemma_storage_round_trip` states.
pub fn decode_storage(k: &[u8], v: &[u8]) -> (r: (u64, Vec<u8>, Vec<u8>))
    requires
        k@.len() >= BLOCK_NUMBER_LENGTH,
        v@.len() >= HASH_LENGTH,
    ensures
        r.0 == spec_block_number_of(k@),
        r.1@ == spec_decode_key(k@, v@),
        r.2@ == spec_decode_value(v@),
{
    let block_num = decode_block_number(k);
    let mut dec_key = Vec::new();
    append_bytes(&mut dec_key, slice_subrange(k, BLOCK_NUMBER_LENGTH, k.len()));
    append_bytes(&mut dec_key, slice_subrange(v, 0, HASH_LENGTH));
    let mut dec_val = Vec::new();
    append_bytes(&mut dec_val, slice_subrange(v, HASH_LENGTH, v.len()));
    proof {
        assert(dec_key@ =~= spec_decode_key(k@, v@));
        assert(dec_val@ =~= spec_decode_value(v@));
    }
    (block_num, dec_key, dec_val)
}

/// One recorded storage write: the logical changeset key
/// (`Address ++ Incarnation ++ SlotHash`) and the value the slot was set to.
pub struct Change {
    pub key: Vec<u8>,
    pub value: Vec<u8>,
}

/// Encodes one block's changeset, ordered by key, into its on-disk pairs,
/// one per entry and in changeset order.
pub fn encode_storage(block_n: u64, s: &Vec<Change>, key_prefix_len: usize) -> (r: Vec<
    (Vec<u8>, Vec<u8>),
>)
    requires
        forall|i: int|
            0 <= i < s@.len() ==> #[trigger] s@[i].key@.len() >= key_prefix_len
                + INCARNATION_LENGTH + HASH_LENGTH,
    ensures
        r@.len() == s@.len(),
        forall|i: int|
            0 <= i < r@.len() ==> (#[trigger] r@[i].0@, r@[i].1@) == spec_encode_pair(
                block_n,
                key_prefix_len as int,
                s@[i].key@,
                s@[i].value@,
            ),
{
    let mut r: Vec<(Vec<u8>, Vec<u8>)> = Vec::new();
    let mut i: usize = 0;
    while i < s.len()
        invariant
            i <= s@.len(),
            r@.len() == i,
            forall|j: int|
                0 <= j < s@.len() ==> #[trigger] s@[j].key@.len() >= key_prefix_len
                    + INCARNATION_LENGTH + HASH_LENGTH,
            forall|j: int|
                0 <= j < i ==> (#[trigger] r@[j].0@, r@[j].1@) == spec_encode_pair(
                    block_n,
                    key_prefix_len as int,
                    s@[j].key@,
                    s@[j].value@,
                ),
        decreases s@.len() - i,
    {
        let cs = &s[i];
        proof {
            assert(s@[i as int].key@.len() >= key_prefix_len + INCARNATION_LENGTH + HASH_LENGTH);
        }
        let klen = cs.key.len();
        let key_part = key_prefix_len + INCARNATION_LENGTH;
        let mut new_k = encode_block_number(block_n);
        append_bytes(&mut new_k, slice_subrange(cs.key.as_slice(), 0, key_part));
        let mut new_v: Vec<u8> = Vec::new();
        append_bytes(&mut new_v, slice_subrange(cs.key.as_slice(), key_part, cs.key.len()));
        append_bytes(&mut new_v, cs.value.as_slice());
        proof {
            assert(cs.key@.subrange(0, key_part as int) =~= cs.key@.take(key_part as int));
            assert(cs.key@.subrange(key_part as int, cs.key@.len() as int) =~= cs.key@.skip(
                key_part as int,
            ));
        }
        r.push((new_k, new_v));
        i = i + 1;
    }
    r
}

} // verus!
