//! Keys: values with a strict total order on their views, which the tree
//! compares, copies into its internal nodes, and fills in where a node has no
//! children yet.

use core::cmp::Ordering;
use vstd::prelude::*;
use vstd::utf8::{encode_utf8, encode_utf8_decode_utf8};

verus! {

/// A key of the tree. `precedes` is a strict total order on the views of
/// keys, and `compare` computes it.
pub trait SearchKey: View + Sized {
    spec fn precedes(a: Self::V, b: Self::V) -> bool;

    proof fn lemma_strict_total_order()
        ensures
            forall|a: Self::V| !#[trigger] Self::precedes(a, a),
            forall|a: Self::V, b: Self::V, c: Self::V|
                #[trigger] Self::precedes(a, b) && #[trigger] Self::precedes(b, c) ==> Self::precedes(
                    a,
                    c,
                ),
            forall|a: Self::V, b: Self::V|
                a != b ==> #[trigger] Self::precedes(a, b) || #[trigger] Self::precedes(b, a),
    ;

    fn compare(&self, other: &Self) -> (r: Ordering)
        ensures
            (r == Ordering::Less) == Self::precedes(self@, other@),
            (r == Ordering::Equal) == (self@ == other@),
            (r == Ordering::Greater) == Self::precedes(other@, self@),
    ;

    fn clone_key(&self) -> (r: Self)
        ensures
            r@ == self@,
    ;

    /// The view of the sentinel key.
    spec fn sentinel_view() -> Self::V;

    /// The value an internal node holds as its representative key before it
    /// has any children.
    fn sentinel() -> (r: Self)
        ensures
            r@ == Self::sentinel_view(),
    ;
}

/// Lexicographic order on byte strings: a proper prefix comes first.
pub open spec fn bytes_precede(a: Seq<u8>, b: Seq<u8>) -> bool
    decreases a.len(),
{
    if a.len() == 0 {
        b.len() > 0
    } else if b.len() == 0 {
        false
    } else if a[0] != b[0] {
        a[0] < b[0]
    } else {
        bytes_precede(a.drop_first(), b.drop_first())
    }
}

proof fn lemma_bytes_precede_irreflexive(a: Seq<u8>)
    ensures
        !bytes_precede(a, a),
    decreases a.len(),
{
    if a.len() > 0 {
        lemma_bytes_precede_irreflexive(a.drop_first());
    }
}

proof fn lemma_bytes_precede_transitive(a: Seq<u8>, b: Seq<u8>, c: Seq<u8>)
    requires
        bytes_precede(a, b),
        bytes_precede(b, c),
    ensures
        bytes_precede(a, c),
    decreases a.len(),
{
    if a.len() > 0 && b.len() > 0 && c.len() > 0 && a[0] == b[0] && b[0] == c[0] {
        lemma_bytes_precede_transitive(a.drop_first(), b.drop_first(), c.drop_first());
    }
}

proof fn lemma_bytes_precede_total(a: Seq<u8>, b: Seq<u8>)
    requires
        a != b,
    ensures
        bytes_precede(a, b) || bytes_precede(b, a),
    decreases a.len(),
{
    if a.len() > 0 && b.len() > 0 && a[0] == b[0] {
        assert(a =~= seq![a[0]] + a.drop_first());
        assert(b =~= seq![b[0]] + b.drop_first());
        lemma_bytes_precede_total(a.drop_first(), b.drop_first());
    } else if a.len() == 0 && b.len() == 0 {
        assert(a =~= b);
    }
}

proof fn lemma_bytes_precede_suffix(a: Seq<u8>, b: Seq<u8>, i: int)
    requires
        0 <= i < a.len(),
        i < b.len(),
        a[i] == b[i],
    ensures
        bytes_precede(a.subrange(i, a.len() as int), b.subrange(i, b.len() as int))
            == bytes_precede(
            a.subrange(i + 1, a.len() as int),
            b.subrange(i + 1, b.len() as int),
        ),
{
    assert(a.subrange(i, a.len() as int).drop_first() =~= a.subrange(i + 1, a.len() as int));
    assert(b.subrange(i, b.len() as int).drop_first() =~= b.subrange(i + 1, b.len() as int));
}

/// Compares two byte strings lexicographically.
fn compare_bytes(a: &[u8], b: &[u8]) -> (r: Ordering)
    ensures
        (r == Ordering::Less) == bytes_precede(a@, b@),
        (r == Ordering::Equal) == (a@ == b@),
        (r == Ordering::Greater) == bytes_precede(b@, a@),
{
    proof {
        lemma_bytes_precede_irreflexive(a@);
        assert(a@.subrange(0, a@.len() as int) =~= a@);
        assert(b@.subrange(0, b@.len() as int) =~= b@);
    }
    let mut i: usize = 0;
    while i < a.len() && i < b.len()
        invariant
            0 <= i <= a@.len(),
            i <= b@.len(),
            a@.subrange(0, i as int) == b@.subrange(0, i as int),
            bytes_precede(a@, b@) == bytes_precede(
                a@.subrange(i as int, a@.len() as int),
                b@.subrange(i as int, b@.len() as int),
            ),
            bytes_precede(b@, a@) == bytes_precede(
                b@.subrange(i as int, b@.len() as int),
                a@.subrange(i as int, a@.len() as int),
            ),
        decreases a@.len() - i,
    {
        if a[i] != b[i] {
            proof {
                assert(a@.subrange(i as int, a@.len() as int)[0] == a@[i as int]);
                assert(b@.subrange(i as int, b@.len() as int)[0] == b@[i as int]);
            }
            if a[i] < b[i] {
                return Ordering::Less;
            } else {
                return Ordering::Greater;
            }
        }
        proof {
            lemma_bytes_precede_suffix(a@, b@, i as int);
            lemma_bytes_precede_suffix(b@, a@, i as int);
            assert(a@.subrange(0, i + 1) =~= a@.subrange(0, i as int).push(a@[i as int]));
            assert(b@.subrange(0, i + 1) =~= b@.subrange(0, i as int).push(b@[i as int]));
        }
        i = i + 1;
    }
    if a.len() == b.len() {
        proof {
            assert(a@ =~= a@.subrange(0, i as int));
            assert(b@ =~= b@.subrange(0, i as int));
            lemma_bytes_precede_irreflexive(a@);
        }
        Ordering::Equal
    } else if a.len() < b.len() {
        proof {
            assert(a@.subrange(0, i as int) =~= a@);
            assert(b@.subrange(0, i as int) =~= a@);
        }
        Ordering::Less
    } else {
        proof {
            assert(b@.subrange(0, i as int) =~= b@);
            assert(a@.subrange(0, i as int) =~= b@);
        }
        Ordering::Greater
    }
}

impl SearchKey for String {
    /// Strings are ordered by their UTF-8 bytes.
    open spec fn precedes(a: Seq<char>, b: Seq<char>) -> bool {
        bytes_precede(encode_utf8(a), encode_utf8(b))
    }

    proof fn lemma_strict_total_order() {
        assert forall|a: Seq<char>| !#[trigger] Self::precedes(a, a) by {
            lemma_bytes_precede_irreflexive(encode_utf8(a));
        }
        assert forall|a: Seq<char>, b: Seq<char>, c: Seq<char>|
            #[trigger] Self::precedes(a, b) && #[trigger] Self::precedes(b, c) implies Self::precedes(
            a,
            c,
        ) by {
            lemma_bytes_precede_transitive(encode_utf8(a), encode_utf8(b), encode_utf8(c));
        }
        assert forall|a: Seq<char>, b: Seq<char>| a != b implies #[trigger] Self::precedes(a, b)
            || #[trigger] Self::precedes(b, a) by {
            encode_utf8_decode_utf8(a);
            encode_utf8_decode_utf8(b);
            lemma_bytes_precede_total(encode_utf8(a), encode_utf8(b));
        }
    }

    fn compare(&self, other: &Self) -> (r: Ordering) {
        let r = compare_bytes(self.as_str().as_bytes(), other.as_str().as_bytes());
        proof {
            encode_utf8_decode_utf8(self@);
            encode_utf8_decode_utf8(other@);
        }
        r
    }

    fn clone_key(&self) -> (r: Self) {
        self.clone()
    }

    open spec fn sentinel_view() -> Seq<char> {
        Seq::empty()
    }

    fn sentinel() -> (r: Self) {
        String::new()
    }
}

impl SearchKey for i32 {
    open spec fn precedes(a: i32, b: i32) -> bool {
        a < b
    }

    proof fn lemma_strict_total_order() {
    }

    fn compare(&self, other: &Self) -> (r: Ordering) {
        if *self < *other {
            Ordering::Less
        } else if *self == *other {
            Ordering::Equal
        } else {
            Ordering::Greater
        }
    }

    fn clone_key(&self) -> (r: Self) {
        *self
    }

    open spec fn sentinel_view() -> i32 {
        0
    }

    fn sentinel() -> (r: Self) {
        0
    }
}

impl SearchKey for i64 {
    open spec fn precedes(a: i64, b: i64) -> bool {
        a < b
    }

    proof fn lemma_strict_total_order() {
    }

    fn compare(&self, other: &Self) -> (r: Ordering) {
        if *self < *other {
            Ordering::Less
        } else if *self == *other {
            Ordering::Equal
        } else {
            Ordering::Greater
        }
    }

    fn clone_key(&self) -> (r: Self) {
        *self
    }

    open spec fn sentinel_view() -> i64 {
        0
    }

    fn sentinel() -> (r: Self) {
        0
    }
}

impl SearchKey for u32 {
    open spec fn precedes(a: u32, b: u32) -> bool {
        a < b
    }

    proof fn lemma_strict_total_order() {
    }

    fn compare(&self, other: &Self) -> (r: Ordering) {
        if *self < *other {
            Ordering::Less
        } else if *self == *other {
            Ordering::Equal
        } else {
            Ordering::Greater
        }
    }

    fn clone_key(&self) -> (r: Self) {
        *self
    }

    open spec fn sentinel_view() -> u32 {
        0
    }

    fn sentinel() -> (r: Self) {
        0
    }
}

impl SearchKey for u64 {
    open spec fn precedes(a: u64, b: u64) -> bool {
        a < b
    }

    proof fn lemma_strict_total_order() {
    }

    fn compare(&self, other: &Self) -> (r: Ordering) {
        if *self < *other {
            Ordering::Less
        } else if *self == *other {
            Ordering::Equal
        } else {
            Ordering::Greater
        }
    }

    fn clone_key(&self) -> (r: Self) {
        *self
    }

    open spec fn sentinel_view() -> u64 {
        0
    }

    fn sentinel() -> (r: Self) {
        0
    }
}

impl SearchKey for usize {
    open spec fn precedes(a: usize, b: usize) -> bool {
        a < b
    }

    proof fn lemma_strict_total_order() {
    }

    fn compare(&self, other: &Self) -> (r: Ordering) {
        if *self < *other {
            Ordering::Less
        } else if *self == *other {
            Ordering::Equal
        } else {
            Ordering::Greater
        }
    }

    fn clone_key(&self) -> (r: Self) {
        *self
    }

    open spec fn sentinel_view() -> usize {
        0
    }

    fn sentinel() -> (r: Self) {
        0
    }
}

} // verus!
