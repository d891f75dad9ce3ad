//! The consumed store interface: a cursor over an ordered key-value store
//! with duplicate-key groups, and a verified in-memory implementation.
//!
//! The store's content is modelled as one flat sequence of (key, value)
//! byte-string pairs in the store's sort order: by key bytes, and inside one
//! duplicate-key group (equal keys) by value bytes. A cursor holds one
//! position in that sequence. The empty-key sentinel reports end-of-data or
//! a missed seek; well-formed stores have no empty keys, so the sentinel is
//! unambiguous there.

use crate::layout::{BLOCK_NUMBER_LENGTH, HASH_LENGTH, INCARNATION_LENGTH};
use crate::lex::{bytes_eq, lex_le, lex_le_bytes};
use vstd::prelude::*;

verus! {

/// An I/O failure reported by the underlying store. It is surfaced
/// unchanged; "not found" is never an error.
#[derive(Clone, Copy, Debug, PartialEq, Eq)]
pub struct CursorError;

/// One store entry comes no later than another: keys compare by bytes, and
/// entries of one duplicate-key group compare by their value bytes.
pub open spec fn entry_le(a: (Seq<u8>, Seq<u8>), b: (Seq<u8>, Seq<u8>)) -> bool {
    if a.0 == b.0 {
        lex_le(a.1, b.1)
    } else {
        lex_le(a.0, b.0)
    }
}

/// Well-formed store content for a given address width: every key is a full
/// `BlockNumber ++ Address ++ Incarnation`, every value starts with a slot
/// hash, and the entries stand in store order.
pub open spec fn store_wf(entries: Seq<(Seq<u8>, Seq<u8>)>, key_prefix_len: int) -> bool {
    &&& forall|i: int|
        0 <= i < entries.len() ==> (#[trigger] entries[i]).0.len() == BLOCK_NUMBER_LENGTH
            + key_prefix_len + INCARNATION_LENGTH
    &&& forall|i: int| 0 <= i < entries.len() ==> (#[trigger] entries[i]).1.len() >= HASH_LENGTH
    &&& forall|i: int, j: int|
        0 <= i < j < entries.len() ==> entry_le(#[trigger] entries[i], #[trigger] entries[j])
}

/// Within one block, two changeset entries in strict key order encode to
/// store pairs in store order: equal key heads collapse onto one store key,
/// whose duplicate-key group the slot hash at the front of the value
/// orders.
pub proof fn lemma_encode_pair_ordered(
    block: u64,
    key_prefix_len: int,
    k1: Seq<u8>,
    v1: Seq<u8>,
    k2: Seq<u8>,
    v2: Seq<u8>,
)
    requires
        key_prefix_len >= 0,
        k1.len() == key_prefix_len + INCARNATION_LENGTH + HASH_LENGTH,
        k2.len() == key_prefix_len + INCARNATION_LENGTH + HASH_LENGTH,
        crate::lex::lex_le(k1, k2),
        k1 != k2,
    ensures
        entry_le(
            crate::layout::spec_encode_pair(block, key_prefix_len, k1, v1),
            crate::layout::spec_encode_pair(block, key_prefix_len, k2, v2),
        ),
{
    let split = key_prefix_len + INCARNATION_LENGTH as int;
    let e1 = crate::layout::spec_encode_pair(block, key_prefix_len, k1, v1);
    let e2 = crate::layout::spec_encode_pair(block, key_prefix_len, k2, v2);
    if k1.take(split) == k2.take(split) {
        assert(e1.0 =~= e2.0);
        crate::lex::lemma_lex_le_skip_common(k1, k2, split);
        assert(k1.skip(split) != k2.skip(split)) by {
            if k1.skip(split) == k2.skip(split) {
                assert forall|i: int| 0 <= i < k1.len() implies k1[i] == k2[i] by {
                    if i < split {
                        assert(k1[i] == k1.take(split)[i] && k2[i] == k2.take(split)[i]);
                    } else {
                        assert(k1[i] == k1.skip(split)[i - split] && k2[i] == k2.skip(split)[i
                            - split]);
                    }
                }
                assert(k1 =~= k2);
            }
        }
        crate::lex::lemma_lex_lt_append(k1.skip(split), k2.skip(split), v1, v2);
    } else {
        crate::lex::lemma_lex_le_take(k1, k2, split);
        assert(e1.0.take(8) =~= e2.0.take(8));
        assert(e1.0.skip(8) =~= k1.take(split));
        assert(e2.0.skip(8) =~= k2.take(split));
        crate::lex::lemma_lex_le_skip_common(e1.0, e2.0, 8);
        assert(e1.0 != e2.0) by {
            if e1.0 == e2.0 {
                assert(k1.take(split) == k2.take(split));
            }
        }
    }
}

/// Entries of an earlier block precede every entry of a later one,
/// whatever their changeset keys: the block number leads the store key.
pub proof fn lemma_encode_block_ordered(
    b1: u64,
    b2: u64,
    key_prefix_len: int,
    k1: Seq<u8>,
    v1: Seq<u8>,
    k2: Seq<u8>,
    v2: Seq<u8>,
)
    requires
        key_prefix_len >= 0,
        b1 < b2,
        k1.len() >= key_prefix_len + INCARNATION_LENGTH + HASH_LENGTH,
        k2.len() >= key_prefix_len + INCARNATION_LENGTH + HASH_LENGTH,
    ensures
        entry_le(
            crate::layout::spec_encode_pair(b1, key_prefix_len, k1, v1),
            crate::layout::spec_encode_pair(b2, key_prefix_len, k2, v2),
        ),
{
    let split = key_prefix_len + INCARNATION_LENGTH as int;
    let be1 = crate::layout::spec_encode_block_number(b1);
    let be2 = crate::layout::spec_encode_block_number(b2);
    let e1 = crate::layout::spec_encode_pair(b1, key_prefix_len, k1, v1);
    let e2 = crate::layout::spec_encode_pair(b2, key_prefix_len, k2, v2);
    crate::layout::lemma_block_number_order(be1, be2);
    crate::layout::lemma_block_number_roundtrip(b1);
    crate::layout::lemma_block_number_roundtrip(b2);
    crate::lex::lemma_lex_lt_append(be1, be2, k1.take(split), k2.take(split));
    assert(e1.0 != e2.0) by {
        if e1.0 == e2.0 {
            assert forall|i: int| 0 <= i < 8 implies be1[i] == be2[i] by {
                assert(be1[i] == e1.0[i] && be2[i] == e2.0[i]);
            }
            assert(be1 =~= be2);
        }
    }
}

/// An entry of a lower block precedes every entry of a higher one, since
/// the block number leads the store key.
pub proof fn lemma_block_below_entry_le(a: (Seq<u8>, Seq<u8>), b: (Seq<u8>, Seq<u8>))
    requires
        a.0.len() >= 8,
        b.0.len() >= 8,
        crate::layout::spec_block_number_of(a.0) < crate::layout::spec_block_number_of(b.0),
    ensures
        entry_le(a, b),
{
    crate::layout::lemma_block_number_take(a.0);
    crate::layout::lemma_block_number_take(b.0);
    crate::layout::lemma_block_number_order(a.0.take(8), b.0.take(8));
    crate::lex::lemma_lex_lt_append(a.0.take(8), b.0.take(8), a.0.skip(8), b.0.skip(8));
    assert(a.0.take(8) + a.0.skip(8) =~= a.0);
    assert(b.0.take(8) + b.0.skip(8) =~= b.0);
    assert(a.0 != b.0) by {
        if a.0 == b.0 {
            assert(a.0.take(8) =~= b.0.take(8));
        }
    }
}

/// A well-formed store stays well-formed when an entry at or past its last
/// one is appended: how a store is grown through `MemCursor::append`.
pub proof fn lemma_store_wf_append(
    entries: Seq<(Seq<u8>, Seq<u8>)>,
    key_prefix_len: int,
    k: Seq<u8>,
    v: Seq<u8>,
)
    requires
        store_wf(entries, key_prefix_len),
        k.len() == BLOCK_NUMBER_LENGTH + key_prefix_len + INCARNATION_LENGTH,
        v.len() >= HASH_LENGTH,
        forall|i: int| 0 <= i < entries.len() ==> entry_le(#[trigger] entries[i], (k, v)),
    ensures
        store_wf(entries.push((k, v)), key_prefix_len),
{
    let grown = entries.push((k, v));
    assert(forall|i: int| 0 <= i < entries.len() ==> #[trigger] grown[i] == entries[i]);
    assert(grown[entries.len() as int] == (k, v));
}

/// A cursor over the ordered store. `entries()` is the store's content in
/// its one sort order, `pos()` the cursor's position in it. Any operation
/// may fail with `CursorError`; nothing is promised of a failed call beyond
/// the content staying what it was.
pub trait CursorDupSort: Sized {
    spec fn entries(&self) -> Seq<(Seq<u8>, Seq<u8>)>;

    spec fn pos(&self) -> int;

    /// Positions at the first entry whose key is at or above `key`, or at
    /// end-of-data, reported by the empty-key sentinel, if none exists.
    fn seek(&mut self, key: &[u8]) -> (r: Result<(Vec<u8>, Vec<u8>), CursorError>)
        ensures
            final(self).entries() == old(self).entries(),
            (r matches Ok(p) ==> {
                let entries = old(self).entries();
                let i = final(self).pos();
                &&& 0 <= i <= entries.len()
                &&& forall|j: int| 0 <= j < i ==> !lex_le(key@, (#[trigger] entries[j]).0)
                &&& (i < entries.len() ==> lex_le(key@, entries[i].0) && (p.0@, p.1@)
                    == entries[i])
                &&& (i == entries.len() ==> p.0@.len() == 0)
            }),
    ;

    /// Advances one entry; the empty-key sentinel reports end-of-data.
    fn next(&mut self) -> (r: Result<(Vec<u8>, Vec<u8>), CursorError>)
        requires
            0 <= old(self).pos() <= old(self).entries().len(),
        ensures
            final(self).entries() == old(self).entries(),
            (r matches Ok(p) ==> {
                let entries = old(self).entries();
                let i = final(self).pos();
                &&& i == if old(self).pos() + 1 <= entries.len() {
                    old(self).pos() + 1
                } else {
                    entries.len() as int
                }
                &&& (i < entries.len() ==> (p.0@, p.1@) == entries[i])
                &&& (i == entries.len() ==> p.0@.len() == 0)
            }),
    ;

    /// Positions inside the duplicate-key group of exactly `key` at the
    /// first entry whose value is at or above `value_prefix`; the empty-key
    /// sentinel reports that no such entry exists.
    fn seek_both_range(&mut self, key: &[u8], value_prefix: &[u8]) -> (r: Result<
        (Vec<u8>, Vec<u8>),
        CursorError,
    >)
        ensures
            final(self).entries() == old(self).entries(),
            (r matches Ok(p) ==> {
                let entries = old(self).entries();
                let i = final(self).pos();
                &&& 0 <= i <= entries.len()
                &&& forall|j: int|
                    0 <= j < i ==> !((#[trigger] entries[j]).0 == key@ && lex_le(
                        value_prefix@,
                        entries[j].1,
                    ))
                &&& (i < entries.len() ==> entries[i].0 == key@ && lex_le(
                    value_prefix@,
                    entries[i].1,
                ) && (p.0@, p.1@) == entries[i])
                &&& (i == entries.len() ==> p.0@.len() == 0)
            }),
    ;
}

/// The byte-string view of a vector of owned entry pairs.
pub open spec fn view_pairs(entries: Seq<(Vec<u8>, Vec<u8>)>) -> Seq<(Seq<u8>, Seq<u8>)> {
    entries.map_values(|p: (Vec<u8>, Vec<u8>)| (p.0@, p.1@))
}

/// An owned copy of a byte string.
pub fn clone_bytes(src: &[u8]) -> (r: Vec<u8>)
    ensures
        r@ == src@,
{
    let mut v: Vec<u8> = Vec::new();
    crate::layout::append_bytes(&mut v, src);
    proof {
        assert(Seq::<u8>::empty() + src@ =~= src@);
    }
    v
}

/// A verified in-memory store with one cursor: the reference implementation
/// of `CursorDupSort`. The caller appends entries in store order.
pub struct MemCursor {
    pub entries: Vec<(Vec<u8>, Vec<u8>)>,
    pub pos: usize,
}

impl MemCursor {
    /// An empty store, cursor at the start.
    pub fn new() -> (r: MemCursor)
        ensures
            r.entries() == Seq::<(Seq<u8>, Seq<u8>)>::empty(),
            r.pos() == 0,
    {
        let c = MemCursor { entries: Vec::new(), pos: 0 };
        proof {
            assert(view_pairs(c.entries@) =~= Seq::<(Seq<u8>, Seq<u8>)>::empty());
        }
        c
    }

    /// Appends one entry at the end; keeping the appended entries in store
    /// order is the caller's charge, stated as `store_wf` where it matters.
    pub fn append(&mut self, k: Vec<u8>, v: Vec<u8>)
        ensures
            final(self).entries() == old(self).entries().push((k@, v@)),
            final(self).pos() == old(self).pos(),
    {
        let ghost ke = k@;
        let ghost ve = v@;
        self.entries.push((k, v));
        proof {
            assert(view_pairs(self.entries@) =~= view_pairs(old(self).entries@).push((ke, ve)));
        }
    }

    /// Encodes one block's changeset and appends the pairs, keeping the
    /// store well-formed: the block lies above everything stored so far,
    /// and the changeset comes strictly ascending by key, as the changeset
    /// invariant has it.
    pub fn append_encoded_changeset(
        &mut self,
        block_n: u64,
        s: &Vec<crate::layout::Change>,
        key_prefix_len: usize,
    )
        requires
            store_wf(old(self).entries(), key_prefix_len as int),
            forall|i: int|
                0 <= i < old(self).entries().len()
                    ==> crate::layout::spec_block_number_of(
                    (#[trigger] old(self).entries()[i]).0,
                ) < block_n,
            forall|i: int|
                0 <= i < s@.len() ==> (#[trigger] s@[i].key@).len() == key_prefix_len
                    + INCARNATION_LENGTH + HASH_LENGTH,
            forall|i: int, j: int|
                0 <= i < j < s@.len() ==> crate::lex::lex_le(
                    (#[trigger] s@[i].key@),
                    (#[trigger] s@[j].key@),
                ) && s@[i].key@ != s@[j].key@,
        ensures
            final(self).pos() == old(self).pos(),
            final(self).entries().len() == old(self).entries().len() + s@.len(),
            forall|i: int|
                0 <= i < old(self).entries().len() ==> #[trigger] final(self).entries()[i]
                    == old(self).entries()[i],
            forall|i: int|
                0 <= i < s@.len() ==> #[trigger] final(self).entries()[old(self).entries().len()
                    + i] == crate::layout::spec_encode_pair(
                    block_n,
                    key_prefix_len as int,
                    s@[i].key@,
                    s@[i].value@,
                ),
            forall|i: int|
                old(self).entries().len() <= i < final(self).entries().len()
                    ==> crate::layout::spec_block_number_of(
                    (#[trigger] final(self).entries()[i]).0,
                ) == block_n,
            store_wf(final(self).entries(), key_prefix_len as int),
    {
        let ghost base = old(self).entries();
        let ghost p = key_prefix_len as int;
        let pairs = crate::layout::encode_storage(block_n, s, key_prefix_len);
        let mut j: usize = 0;
        while j < pairs.len()
            invariant
                base == old(self).entries(),
                p == key_prefix_len,
                pairs@.len() == s@.len(),
                forall|t: int|
                    0 <= t < pairs@.len() ==> (#[trigger] pairs@[t].0@, pairs@[t].1@)
                        == crate::layout::spec_encode_pair(block_n, p, s@[t].key@, s@[t].value@),
                forall|i: int|
                    0 <= i < base.len() ==> crate::layout::spec_block_number_of(
                        (#[trigger] base[i]).0,
                    ) < block_n,
                forall|i: int|
                    0 <= i < s@.len() ==> (#[trigger] s@[i].key@).len() == key_prefix_len
                        + INCARNATION_LENGTH + HASH_LENGTH,
                forall|i: int, j2: int|
                    0 <= i < j2 < s@.len() ==> crate::lex::lex_le(
                        (#[trigger] s@[i].key@),
                        (#[trigger] s@[j2].key@),
                    ) && s@[i].key@ != s@[j2].key@,
                j <= pairs@.len(),
                self.pos() == old(self).pos(),
                self.entries().len() == base.len() + j,
                forall|i: int| 0 <= i < base.len() ==> #[trigger] self.entries()[i] == base[i],
                forall|i: int|
                    0 <= i < j ==> #[trigger] self.entries()[base.len() + i]
                        == crate::layout::spec_encode_pair(block_n, p, s@[i].key@, s@[i].value@),
                forall|i: int|
                    base.len() <= i < self.entries().len()
                        ==> crate::layout::spec_block_number_of(
                        (#[trigger] self.entries()[i]).0,
                    ) == block_n,
                store_wf(self.entries(), p),
            decreases pairs@.len() - j,
        {
            let k = clone_bytes(pairs[j].0.as_slice());
            let v = clone_bytes(pairs[j].1.as_slice());
            proof {
                let e = (k@, v@);
                assert(e == crate::layout::spec_encode_pair(block_n, p, s@[j as int].key@,
                    s@[j as int].value@));
                assert(e.0.take(8) =~= crate::layout::spec_encode_block_number(block_n));
                crate::layout::lemma_block_field(e.0, block_n);
                assert forall|i: int| 0 <= i < self.entries().len() implies entry_le(
                    #[trigger] self.entries()[i],
                    e,
                ) by {
                    if i < base.len() {
                        lemma_block_below_entry_le(self.entries()[i], e);
                    } else {
                        let t = i - base.len();
                        assert(self.entries()[base.len() + t]
                            == crate::layout::spec_encode_pair(block_n, p, s@[t].key@,
                            s@[t].value@));
                        assert(i == base.len() + t);
                        lemma_encode_pair_ordered(block_n, p, s@[t].key@, s@[t].value@,
                            s@[j as int].key@, s@[j as int].value@);
                    }
                }
                lemma_store_wf_append(self.entries(), p, k@, v@);
            }
            self.append(k, v);
            j = j + 1;
        }
    }
}

impl CursorDupSort for MemCursor {
    open spec fn entries(&self) -> Seq<(Seq<u8>, Seq<u8>)> {
        view_pairs(self.entries@)
    }

    open spec fn pos(&self) -> int {
        self.pos as int
    }

    fn seek(&mut self, key: &[u8]) -> (r: Result<(Vec<u8>, Vec<u8>), CursorError>) {
        let n = self.entries.len();
        let mut i: usize = 0;
        while i < n
            invariant
                self.entries@ == old(self).entries@,
                n == self.entries@.len(),
                i <= n,
                forall|j: int|
                    0 <= j < i ==> !lex_le(key@, (#[trigger] view_pairs(self.entries@)[j]).0),
            decreases n - i,
        {
            let ge = lex_le_bytes(key, self.entries[i].0.as_slice());
            if ge {
                self.pos = i;
                let ck = clone_bytes(self.entries[i].0.as_slice());
                let cv = clone_bytes(self.entries[i].1.as_slice());
                return Ok((ck, cv));
            }
            i = i + 1;
        }
        self.pos = n;
        Ok((Vec::new(), Vec::new()))
    }

    fn next(&mut self) -> (r: Result<(Vec<u8>, Vec<u8>), CursorError>) {
        let n = self.entries.len();
        if self.pos >= n {
            self.pos = n;
            return Ok((Vec::new(), Vec::new()));
        }
        self.pos = self.pos + 1;
        if self.pos < n {
            let ck = clone_bytes(self.entries[self.pos].0.as_slice());
            let cv = clone_bytes(self.entries[self.pos].1.as_slice());
            Ok((ck, cv))
        } else {
            Ok((Vec::new(), Vec::new()))
        }
    }

    fn seek_both_range(&mut self, key: &[u8], value_prefix: &[u8]) -> (r: Result<
        (Vec<u8>, Vec<u8>),
        CursorError,
    >) {
        let n = self.entries.len();
        let mut i: usize = 0;
        while i < n
            invariant
                self.entries@ == old(self).entries@,
                n == self.entries@.len(),
                i <= n,
                forall|j: int|
                    0 <= j < i ==> !((#[trigger] view_pairs(self.entries@)[j]).0 == key@ && lex_le(
                        value_prefix@,
                        view_pairs(self.entries@)[j].1,
                    )),
            decreases n - i,
        {
            let keq = bytes_eq(self.entries[i].0.as_slice(), key);
            if keq {
                let vge = lex_le_bytes(value_prefix, self.entries[i].1.as_slice());
                if vge {
                    self.pos = i;
                    let ck = clone_bytes(self.entries[i].0.as_slice());
                    let cv = clone_bytes(self.entries[i].1.as_slice());
                    return Ok((ck, cv));
                }
            }
            i = i + 1;
        }
        self.pos = n;
        Ok((Vec::new(), Vec::new()))
    }
}

} // verus!
