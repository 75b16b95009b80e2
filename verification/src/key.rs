//! Key order: a total preorder on the bytes of a key.

use vstd::prelude::*;

verus! {

/// Outcome of comparing two keys.
#[derive(Debug, Clone, Copy, PartialEq, Eq, Structural)]
pub enum KeyOrder {
    Less,
    Equal,
    Greater,
}

/// A key type, seen through the bytes of its values.
pub trait Key: Sized {
    /// Whether the key `a` is ordered before the key `b`, or equal to it.
    spec fn le(a: Seq<u8>, b: Seq<u8>) -> bool;

    /// The order is reflexive, total and transitive.
    proof fn le_laws()
        ensures
            forall|a: Seq<u8>| #[trigger] Self::le(a, a),
            forall|a: Seq<u8>, b: Seq<u8>| #[trigger] Self::le(a, b) || Self::le(b, a),
            forall|a: Seq<u8>, b: Seq<u8>, c: Seq<u8>|
                #[trigger] Self::le(a, b) && #[trigger] Self::le(b, c) ==> Self::le(a, c),
    ;

    /// Compares two keys.
    fn compare(a: &[u8], b: &[u8]) -> (o: KeyOrder)
        ensures
            o == (if !Self::le(b@, a@) {
                KeyOrder::Less
            } else if !Self::le(a@, b@) {
                KeyOrder::Greater
            } else {
                KeyOrder::Equal
            }),
    ;
}

/// Whether two keys are the same key.
pub open spec fn key_eq<K: Key>(a: Seq<u8>, b: Seq<u8>) -> bool {
    K::le(a, b) && K::le(b, a)
}

/// Byte strings, ordered lexicographically.
#[derive(Debug, Clone, Copy)]
pub struct ByteKey {}

/// Lexicographic order on byte strings.
pub open spec fn lex_le(a: Seq<u8>, b: Seq<u8>) -> bool
    decreases a.len(),
{
    if a.len() == 0 {
        true
    } else if b.len() == 0 {
        false
    } else if a[0] != b[0] {
        a[0] < b[0]
    } else {
        lex_le(a.skip(1), b.skip(1))
    }
}

proof fn lemma_lex_refl(a: Seq<u8>)
    ensures
        lex_le(a, a),
    decreases a.len(),
{
    if a.len() > 0 {
        lemma_lex_refl(a.skip(1));
    }
}

proof fn lemma_lex_total(a: Seq<u8>, b: Seq<u8>)
    ensures
        lex_le(a, b) || lex_le(b, a),
    decreases a.len(),
{
    if a.len() > 0 && b.len() > 0 {
        lemma_lex_total(a.skip(1), b.skip(1));
    }
}

proof fn lemma_lex_trans(a: Seq<u8>, b: Seq<u8>, c: Seq<u8>)
    requires
        lex_le(a, b),
        lex_le(b, c),
    ensures
        lex_le(a, c),
    decreases a.len(),
{
    if a.len() > 0 && b.len() > 0 && c.len() > 0 && a[0] == b[0] && b[0] == c[0] {
        lemma_lex_trans(a.skip(1), b.skip(1), c.skip(1));
    }
}

/// Lexicographic order tells byte strings apart: keys that are ordered both
/// ways are the same bytes.
pub proof fn lemma_lex_antisymmetric(a: Seq<u8>, b: Seq<u8>)
    requires
        lex_le(a, b),
        lex_le(b, a),
    ensures
        a == b,
    decreases a.len(),
{
    if a.len() > 0 && b.len() > 0 {
        lemma_lex_antisymmetric(a.skip(1), b.skip(1));
        assert(a =~= seq![a[0]] + a.skip(1));
        assert(b =~= seq![b[0]] + b.skip(1));
    } else {
        assert(a =~= b);
    }
}

impl Key for ByteKey {
    open spec fn le(a: Seq<u8>, b: Seq<u8>) -> bool {
        lex_le(a, b)
    }

    proof fn le_laws() {
        assert forall|a: Seq<u8>| #[trigger] Self::le(a, a) by {
            lemma_lex_refl(a);
        }
        assert forall|a: Seq<u8>, b: Seq<u8>| #[trigger] Self::le(a, b) || Self::le(b, a) by {
            lemma_lex_total(a, b);
        }
        assert forall|a: Seq<u8>, b: Seq<u8>, c: Seq<u8>|
            #[trigger] Self::le(a, b) && #[trigger] Self::le(b, c) implies Self::le(a, c) by {
            lemma_lex_trans(a, b, c);
        }
    }

    fn compare(a: &[u8], b: &[u8]) -> (o: KeyOrder) {
        let mut i: usize = 0;
        assert(a@.skip(0) =~= a@);
        assert(b@.skip(0) =~= b@);
        while i < a.len() && i < b.len()
            invariant
                i <= a.len(),
                i <= b.len(),
                lex_le(a@, b@) == lex_le(a@.skip(i as int), b@.skip(i as int)),
                lex_le(b@, a@) == lex_le(b@.skip(i as int), a@.skip(i as int)),
            decreases a.len() - i,
        {
            if a[i] < b[i] {
                return KeyOrder::Less;
            }
            if a[i] > b[i] {
                return KeyOrder::Greater;
            }
            assert(a@.skip(i as int).skip(1) =~= a@.skip(i + 1));
            assert(b@.skip(i as int).skip(1) =~= b@.skip(i + 1));
            i = i + 1;
        }
        if i < b.len() {
            KeyOrder::Less
        } else if i < a.len() {
            KeyOrder::Greater
        } else {
            KeyOrder::Equal
        }
    }
}

/// The order of byte strings: one is at most another exactly if it is a prefix of the
/// other, or if at the first index where they differ both have a byte and its own is the
/// smaller.
pub proof fn law_bytes_are_ordered_at_the_first_difference(a: Seq<u8>, b: Seq<u8>)
    ensures
        ByteKey::le(a, b) <==> {
            ||| a.len() <= b.len() && forall|j: int| 0 <= j < a.len() ==> a[j] == b[j]
            ||| exists|i: int|
                0 <= i < a.len() && i < b.len() && #[trigger] a[i] < b[i] && forall|j: int|
                    0 <= j < i ==> a[j] == b[j]
        },
    decreases a.len(),
{
    if a.len() > 0 && b.len() > 0 && a[0] == b[0] {
        let a1 = a.skip(1);
        let b1 = b.skip(1);
        law_bytes_are_ordered_at_the_first_difference(a1, b1);
        assert(forall|j: int| 0 <= j < a1.len() ==> #[trigger] a1[j] == a[j + 1]);
        assert(forall|j: int| 0 <= j < b1.len() ==> #[trigger] b1[j] == b[j + 1]);
        assert(forall|j: int| 1 <= j < a.len() ==> #[trigger] a[j] == a1[j - 1]);
        assert(forall|j: int| 1 <= j < b.len() ==> #[trigger] b[j] == b1[j - 1]);
        if ByteKey::le(a1, b1) {
            if !(a1.len() <= b1.len() && forall|j: int| 0 <= j < a1.len() ==> a1[j] == b1[j]) {
                let i = choose|i: int|
                    0 <= i < a1.len() && i < b1.len() && #[trigger] a1[i] < b1[i] && forall|j: int|
                        0 <= j < i ==> a1[j] == b1[j];
                assert(a[i + 1] < b[i + 1]);
                assert forall|j: int| 0 <= j < i + 1 implies a[j] == b[j] by {
                    if j > 0 {
                        assert(a1[j - 1] == b1[j - 1]);
                    }
                }
            } else {
                assert forall|j: int| 0 <= j < a.len() implies a[j] == b[j] by {
                    if j > 0 {
                        assert(a1[j - 1] == b1[j - 1]);
                    }
                }
            }
        } else if exists|i: int|
            0 <= i < a.len() && i < b.len() && #[trigger] a[i] < b[i] && forall|j: int|
                0 <= j < i ==> a[j] == b[j] {
            let i = choose|i: int|
                0 <= i < a.len() && i < b.len() && #[trigger] a[i] < b[i] && forall|j: int|
                    0 <= j < i ==> a[j] == b[j];
            assert(a1[i - 1] < b1[i - 1]);
            assert forall|j: int| 0 <= j < i - 1 implies a1[j] == b1[j] by {
                assert(a[j + 1] == b[j + 1]);
            }
        } else if a.len() <= b.len() && forall|j: int| 0 <= j < a.len() ==> a[j] == b[j] {
            assert forall|j: int| 0 <= j < a1.len() implies a1[j] == b1[j] by {
                assert(a[j + 1] == b[j + 1]);
            }
        }
    } else if a.len() > 0 && b.len() > 0 {
        assert(a[0] != b[0]);
        if a[0] < b[0] {
            assert(forall|j: int| 0 <= j < 0 ==> a[j] == b[j]);
        }
    }
}

/// A byte string is never behind what extends it, and always before what extends it by a
/// byte or more; and only a byte string itself is the same key.
pub proof fn law_prefixes_come_first(a: Seq<u8>, rest: Seq<u8>, b: Seq<u8>)
    ensures
        ByteKey::le(a, a + rest),
        ByteKey::le(a + rest, a) <==> rest.len() == 0,
        key_eq::<ByteKey>(a, b) <==> a == b,
{
    let c = a + rest;
    law_bytes_are_ordered_at_the_first_difference(a, c);
    law_bytes_are_ordered_at_the_first_difference(c, a);
    assert(forall|j: int| 0 <= j < a.len() ==> c[j] == a[j]);
    lemma_lex_refl(a);
    if key_eq::<ByteKey>(a, b) {
        lemma_lex_antisymmetric(a, b);
    }
}

} // verus!
