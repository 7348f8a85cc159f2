//! Fixed-width content hashes and the XOR that combines them.

use vstd::prelude::*;

verus! {

/// A 256-bit content hash. Hashes are never ordered, only compared and
/// combined with XOR.
#[derive(Clone, Copy, Debug)]
pub struct NodeHash(pub [u8; 32]);

impl View for NodeHash {
    type V = Seq<u8>;

    open spec fn view(&self) -> Seq<u8> {
        self.0@
    }
}

/// The all-zero hash: the identity of XOR.
pub open spec fn zero_hash() -> Seq<u8> {
    Seq::new(32, |i: int| 0u8)
}

/// Byte-wise XOR of two hashes.
pub open spec fn xor_hash(a: Seq<u8>, b: Seq<u8>) -> Seq<u8> {
    Seq::new(32, |i: int| a[i] ^ b[i])
}

pub proof fn lemma_xor_commutes(a: Seq<u8>, b: Seq<u8>)
    ensures
        xor_hash(a, b) == xor_hash(b, a),
{
    assert forall|i: int| 0 <= i < 32 implies #[trigger] xor_hash(a, b)[i] == xor_hash(b, a)[i] by {
        let (x, y) = (a[i], b[i]);
        assert(x ^ y == y ^ x) by (bit_vector);
    }
    assert(xor_hash(a, b) =~= xor_hash(b, a));
}

pub proof fn lemma_xor_associates(a: Seq<u8>, b: Seq<u8>, c: Seq<u8>)
    ensures
        xor_hash(xor_hash(a, b), c) == xor_hash(a, xor_hash(b, c)),
{
    assert forall|i: int| 0 <= i < 32 implies #[trigger] xor_hash(xor_hash(a, b), c)[i]
        == xor_hash(a, xor_hash(b, c))[i] by {
        let (x, y, z) = (a[i], b[i], c[i]);
        assert((x ^ y) ^ z == x ^ (y ^ z)) by (bit_vector);
    }
    assert(xor_hash(xor_hash(a, b), c) =~= xor_hash(a, xor_hash(b, c)));
}

pub proof fn lemma_xor_self_cancels(a: Seq<u8>)
    ensures
        xor_hash(a, a) == zero_hash(),
{
    assert forall|i: int| 0 <= i < 32 implies #[trigger] xor_hash(a, a)[i] == zero_hash()[i] by {
        let x = a[i];
        assert(x ^ x == 0) by (bit_vector);
    }
    assert(xor_hash(a, a) =~= zero_hash());
}

pub proof fn lemma_xor_zero_identity(a: Seq<u8>)
    requires
        a.len() == 32,
    ensures
        xor_hash(zero_hash(), a) == a,
        xor_hash(a, zero_hash()) == a,
{
    assert forall|i: int| 0 <= i < 32 implies #[trigger] xor_hash(zero_hash(), a)[i] == a[i] by {
        let x = a[i];
        assert(0u8 ^ x == x) by (bit_vector);
    }
    assert(xor_hash(zero_hash(), a) =~= a);
    lemma_xor_commutes(a, zero_hash());
}

/// Taking `c` back out of a combination and putting `d` in its place.
pub proof fn lemma_xor_replace(a: Seq<u8>, b: Seq<u8>, c: Seq<u8>, d: Seq<u8>)
    ensures
        xor_hash(xor_hash(xor_hash(xor_hash(a, c), b), c), d) == xor_hash(xor_hash(a, d), b),
{
    let l = xor_hash(xor_hash(xor_hash(xor_hash(a, c), b), c), d);
    let r = xor_hash(xor_hash(a, d), b);
    assert forall|i: int| 0 <= i < 32 implies #[trigger] l[i] == r[i] by {
        let (w, x, y, z) = (a[i], b[i], c[i], d[i]);
        assert((((w ^ y) ^ x) ^ y) ^ z == (w ^ z) ^ x) by (bit_vector);
    }
    assert(l =~= r);
}

/// Swapping the last two operands of a combination.
pub proof fn lemma_xor_swap_last(a: Seq<u8>, b: Seq<u8>, c: Seq<u8>)
    ensures
        xor_hash(xor_hash(a, b), c) == xor_hash(xor_hash(a, c), b),
{
    let l = xor_hash(xor_hash(a, b), c);
    let r = xor_hash(xor_hash(a, c), b);
    assert forall|i: int| 0 <= i < 32 implies #[trigger] l[i] == r[i] by {
        let (x, y, z) = (a[i], b[i], c[i]);
        assert((x ^ y) ^ z == (x ^ z) ^ y) by (bit_vector);
    }
    assert(l =~= r);
}

impl PartialEq for NodeHash {
    fn eq(&self, other: &NodeHash) -> (r: bool)
        ensures
            r == (self@ == other@),
    {
        let mut i: usize = 0;
        while i < 32
            invariant
                0 <= i <= 32,
                self@.len() == 32,
                other@.len() == 32,
                forall|j: int| 0 <= j < i ==> self@[j] == other@[j],
            decreases 32 - i,
        {
            if self.0[i] != other.0[i] {
                return false;
            }
            i = i + 1;
        }
        assert(self@ =~= other@);
        true
    }
}

impl vstd::std_specs::cmp::PartialEqSpecImpl for NodeHash {
    open spec fn obeys_eq_spec() -> bool {
        true
    }

    open spec fn eq_spec(&self, other: &NodeHash) -> bool {
        self@ == other@
    }
}

impl Eq for NodeHash {
}

impl Default for NodeHash {
    /// The all-zero hash.
    fn default() -> (r: NodeHash)
        ensures
            r@ == zero_hash(),
    {
        NodeHash::zero()
    }
}

impl From<[u8; 32]> for NodeHash {
    fn from(value: [u8; 32]) -> (r: NodeHash)
        ensures
            r.0 == value,
    {
        NodeHash(value)
    }
}

impl vstd::std_specs::convert::FromSpecImpl<[u8; 32]> for NodeHash {
    open spec fn obeys_from_spec() -> bool {
        true
    }

    open spec fn from_spec(value: [u8; 32]) -> NodeHash {
        NodeHash(value)
    }
}

impl NodeHash {
    /// The all-zero hash.
    pub fn zero() -> (r: NodeHash)
        ensures
            r@ == zero_hash(),
    {
        let r = NodeHash([0u8; 32]);
        assert(r@ =~= zero_hash());
        r
    }

    /// XORs `source` into `self`, byte by byte.
    pub fn xor(&mut self, source: &NodeHash)
        ensures
            final(self)@ == xor_hash(old(self)@, source@),
    {
        let ghost start = self@;
        let mut i: usize = 0;
        while i < 32
            invariant
                0 <= i <= 32,
                self@.len() == 32,
                forall|j: int| 0 <= j < i ==> self@[j] == start[j] ^ source@[j],
                forall|j: int| i <= j < 32 ==> self@[j] == start[j],
            decreases 32 - i,
        {
            self.0[i] = self.0[i] ^ source.0[i];
            i = i + 1;
        }
        assert(self@ =~= xor_hash(start, source@));
    }
}

} // verus!
