//! Byte-lexicographic order on byte strings.
//!
//! The underlying store sorts its entries by the raw bytes of their keys,
//! and the values inside one duplicate-key group by the raw bytes of the
//! values. Every ordering argument in the walker and in the point search
//! comes down to the facts about this order proved here.

use vstd::prelude::*;

verus! {

/// `a` comes no later than `b` in byte-lexicographic order: at the first
/// differing position the byte of `a` is smaller, or `a` is a prefix of `b`.
pub open spec fn lex_le(a: Seq<u8>, b: Seq<u8>) -> bool
    decreases a.len(),
{
    if a.len() == 0 {
        true
    } else if b.len() == 0 {
        false
    } else if a[0] < b[0] {
        true
    } else if a[0] > b[0] {
        false
    } else {
        lex_le(a.skip(1), b.skip(1))
    }
}

/// `p` is an initial segment of `a`.
pub open spec fn is_prefix_of(p: Seq<u8>, a: Seq<u8>) -> bool {
    p.len() <= a.len() && a.take(p.len() as int) == p
}

/// The order is reflexive.
pub proof fn lemma_lex_le_refl(a: Seq<u8>)
    ensures
        lex_le(a, a),
    decreases a.len(),
{
    if a.len() > 0 {
        lemma_lex_le_refl(a.skip(1));
    }
}

/// The order is total.
pub proof fn lemma_lex_le_total(a: Seq<u8>, b: Seq<u8>)
    ensures
        lex_le(a, b) || lex_le(b, a),
    decreases a.len(),
{
    if a.len() > 0 && b.len() > 0 && a[0] == b[0] {
        lemma_lex_le_total(a.skip(1), b.skip(1));
    }
}

/// The order is transitive.
pub proof fn lemma_lex_le_trans(a: Seq<u8>, b: Seq<u8>, c: Seq<u8>)
    requires
        lex_le(a, b),
        lex_le(b, c),
    ensures
        lex_le(a, c),
    decreases a.len(),
{
    if a.len() > 0 && b.len() > 0 && c.len() > 0 && a[0] == b[0] && b[0] == c[0] {
        lemma_lex_le_trans(a.skip(1), b.skip(1), c.skip(1));
    }
}

/// Peeling one byte off a prefix relation.
pub proof fn lemma_prefix_skip1(p: Seq<u8>, a: Seq<u8>)
    requires
        p.len() > 0,
    ensures
        is_prefix_of(p, a) <==> (a.len() >= p.len() && a[0] == p[0] && is_prefix_of(
            p.skip(1),
            a.skip(1),
        )),
{
    if a.len() >= p.len() {
        if is_prefix_of(p, a) {
            assert(a[0] == a.take(p.len() as int)[0]);
            assert(a.skip(1).take(p.len() - 1) =~= p.skip(1)) by {
                assert(forall|i: int|
                    0 <= i < p.len() - 1 ==> #[trigger] a.skip(1).take(p.len() - 1)[i] == a.take(
                        p.len() as int,
                    )[i + 1]);
            }
        } else if a[0] == p[0] && is_prefix_of(p.skip(1), a.skip(1)) {
            assert(a.take(p.len() as int) =~= p) by {
                assert(forall|i: int|
                    1 <= i < p.len() ==> #[trigger] a.take(p.len() as int)[i] == a.skip(1).take(
                        p.len() - 1,
                    )[i - 1] && p[i] == p.skip(1)[i - 1]);
            }
        }
    }
}

/// A byte string is at least as large as each of its prefixes.
pub proof fn lemma_prefix_le(p: Seq<u8>, a: Seq<u8>)
    requires
        is_prefix_of(p, a),
    ensures
        lex_le(p, a),
    decreases p.len(),
{
    if p.len() > 0 {
        lemma_prefix_skip1(p, a);
        lemma_prefix_le(p.skip(1), a.skip(1));
    }
}

/// Once a scan in key order has passed a key that is at or above `p` but not
/// prefixed by `p`, no later key is prefixed by `p` either: the strings that
/// extend `p` form one contiguous band of the order.
pub proof fn lemma_le_unprefixed_blocks(p: Seq<u8>, a: Seq<u8>, c: Seq<u8>)
    requires
        lex_le(p, a),
        !is_prefix_of(p, a),
        lex_le(a, c),
    ensures
        !is_prefix_of(p, c),
    decreases p.len(),
{
    if p.len() == 0 {
        assert(a.take(0) =~= p);
        assert(false);
    } else if is_prefix_of(p, c) {
        lemma_prefix_skip1(p, c);
        assert(a.len() > 0);
        if p[0] == a[0] {
            assert(a[0] == c[0]);
            lemma_prefix_skip1(p, a);
            lemma_le_unprefixed_blocks(p.skip(1), a.skip(1), c.skip(1));
        } else {
            assert(p[0] < a[0]);
            assert(false);
        }
    }
}

/// Two distinct strings of one length differ before either ends, so how
/// they compare survives appending anything to both.
pub proof fn lemma_lex_lt_append(a: Seq<u8>, b: Seq<u8>, x: Seq<u8>, y: Seq<u8>)
    requires
        lex_le(a, b),
        a != b,
        a.len() == b.len(),
    ensures
        lex_le(a + x, b + y),
    decreases a.len(),
{
    if a.len() == 0 {
        assert(a =~= b);
        assert(false);
    } else {
        assert((a + x)[0] == a[0] && (b + y)[0] == b[0]);
        if a[0] == b[0] {
            assert(a.skip(1) != b.skip(1)) by {
                if a.skip(1) == b.skip(1) {
                    assert(a =~= b) by {
                        assert(forall|i: int|
                            1 <= i < a.len() ==> #[trigger] a[i] == a.skip(1)[i - 1] && b[i]
                                == b.skip(1)[i - 1]);
                    }
                }
            }
            lemma_lex_lt_append(a.skip(1), b.skip(1), x, y);
            assert((a + x).skip(1) =~= a.skip(1) + x);
            assert((b + y).skip(1) =~= b.skip(1) + y);
        }
    }
}

/// Truncating both strings to a common length preserves the order.
pub proof fn lemma_lex_le_take(a: Seq<u8>, b: Seq<u8>, n: int)
    requires
        lex_le(a, b),
        0 <= n <= a.len(),
        n <= b.len(),
    ensures
        lex_le(a.take(n), b.take(n)),
    decreases n,
{
    if n > 0 {
        assert(a.len() > 0 && b.len() > 0);
        if a[0] == b[0] {
            lemma_lex_le_take(a.skip(1), b.skip(1), n - 1);
            assert(a.take(n).skip(1) =~= a.skip(1).take(n - 1));
            assert(b.take(n).skip(1) =~= b.skip(1).take(n - 1));
            assert(a.take(n)[0] == b.take(n)[0]);
        } else {
            assert(a.take(n)[0] == a[0] && b.take(n)[0] == b[0]);
        }
    }
}

/// Dropping an equal initial segment from both strings does not change how
/// they compare.
pub proof fn lemma_lex_le_skip_common(a: Seq<u8>, b: Seq<u8>, i: int)
    requires
        0 <= i <= a.len(),
        i <= b.len(),
        a.take(i) == b.take(i),
    ensures
        lex_le(a, b) == lex_le(a.skip(i), b.skip(i)),
    decreases i,
{
    if i == 0 {
        assert(a.skip(0) =~= a);
        assert(b.skip(0) =~= b);
    } else {
        assert(a[0] == b[0]) by {
            assert(a.take(i)[0] == a[0] && b.take(i)[0] == b[0]);
        }
        assert(a.skip(1).take(i - 1) =~= b.skip(1).take(i - 1)) by {
            assert(forall|j: int|
                0 <= j < i - 1 ==> #[trigger] a.skip(1).take(i - 1)[j] == a.take(i)[j + 1]
                    && b.skip(1).take(i - 1)[j] == b.take(i)[j + 1]);
        }
        lemma_lex_le_skip_common(a.skip(1), b.skip(1), i - 1);
        assert(a.skip(1).skip(i - 1) =~= a.skip(i));
        assert(b.skip(1).skip(i - 1) =~= b.skip(i));
    }
}

/// Byte-lexicographic comparison, `a <= b`.
pub fn lex_le_bytes(a: &[u8], b: &[u8]) -> (r: bool)
    ensures
        r == lex_le(a@, b@),
{
    let mut i: usize = 0;
    loop
        invariant
            i <= a@.len(),
            i <= b@.len(),
            a@.take(i as int) == b@.take(i as int),
        decreases a@.len() - i,
    {
        proof {
            lemma_lex_le_skip_common(a@, b@, i as int);
        }
        if i == a.len() {
            return true;
        }
        if i == b.len() {
            return false;
        }
        let x = a[i];
        let y = b[i];
        if x != y {
            proof {
                assert(a@.skip(i as int)[0] == x && b@.skip(i as int)[0] == y);
            }
            return x < y;
        }
        proof {
            assert(a@.take(i + 1) =~= b@.take(i + 1)) by {
                assert(forall|j: int|
                    0 <= j < i ==> #[trigger] a@.take(i + 1)[j] == a@.take(i as int)[j]
                        && b@.take(i + 1)[j] == b@.take(i as int)[j]);
            }
        }
        i = i + 1;
    }
}

/// Exact equality of two byte strings.
pub fn bytes_eq(a: &[u8], b: &[u8]) -> (r: bool)
    ensures
        r == (a@ == b@),
{
    if a.len() != b.len() {
        return false;
    }
    let mut i: usize = 0;
    while i < a.len()
        invariant
            a@.len() == b@.len(),
            i <= a@.len(),
            forall|j: int| 0 <= j < i ==> a@[j] == b@[j],
        decreases a@.len() - i,
    {
        if a[i] != b[i] {
            return false;
        }
        i = i + 1;
    }
    proof {
        assert(a@ =~= b@);
    }
    true
}

/// Does `a` start with the bytes of `p`?
pub fn has_prefix(a: &[u8], p: &[u8]) -> (r: bool)
    ensures
        r == is_prefix_of(p@, a@),
{
    if a.len() < p.len() {
        return false;
    }
    let head = vstd::slice::slice_subrange(a, 0, p.len());
    proof {
        assert(a@.subrange(0, p@.len() as int) =~= a@.take(p@.len() as int));
    }
    bytes_eq(head, p)
}

} // verus!
