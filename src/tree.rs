//! The tree itself: owns the root node, hashes values on insert, and grows a
//! level whenever the root splits.

use crate::contents::{
    content_hash, lemma_content_hash_remove, lemma_map_of_domain, lemma_upsert_map,
    lemma_upsert_sorted, lemma_xor_entries_is_content_hash, map_of, strictly_sorted,
};
use crate::digest::{hash_value, value_hash};
use crate::hash::{
    lemma_xor_associates, lemma_xor_self_cancels, lemma_xor_zero_identity, xor_hash, zero_hash,
    NodeHash,
};
use crate::key::SearchKey;
use crate::node::{
    lemma_children_hashes, lemma_entries_of_concat, lemma_entries_of_single,
    inserted, lemma_internal_inv, lemma_xor_children, replaced_in_place, Node,
};
use vstd::prelude::*;

verus! {

/// The root after inserting `leaf` into `old_root` with fan-out bound `max`:
/// the old root updated in place, or, when it split, a new root whose two
/// children are the updated old root and its new sibling.
pub open spec fn root_after_insert<K: SearchKey>(
    old_root: Node<K>,
    leaf: Node<K>,
    max: nat,
    new_root: Node<K>,
) -> bool {
    ||| inserted(old_root, leaf, max, new_root, None)
    ||| {
        &&& new_root is Internal
        &&& new_root.children_view().len() == 2
        &&& inserted(
            old_root,
            leaf,
            max,
            new_root.children_view()[0],
            Some(new_root.children_view()[1]),
        )
    }
}

/// A Merkle search tree with keys of type `K`.
pub struct MerkleSearchTree<K> {
    root: Node<K>,
    max_children: usize,
}

impl<K: SearchKey> View for MerkleSearchTree<K> {
    type V = Map<K::V, Seq<u8>>;

    /// Each key in the tree with the hash of its latest value.
    closed spec fn view(&self) -> Map<K::V, Seq<u8>> {
        map_of(self.root.entries())
    }
}

impl<K: SearchKey> MerkleSearchTree<K> {
    /// The root node, which is always internal.
    pub closed spec fn root_node(self) -> Node<K> {
        self.root
    }

    /// The most children an internal node may keep after an insert.
    pub closed spec fn max_fanout(self) -> nat {
        self.max_children as nat
    }

    /// The hash the root holds.
    pub closed spec fn hash_view(self) -> Seq<u8> {
        self.root.hash_view()
    }

    /// The tree's invariant: a well-formed internal root, every internal
    /// node within the fan-out bound, a bound of at least two, and 32-byte
    /// value hashes.
    pub closed spec fn wf(self) -> bool {
        &&& self.root is Internal
        &&& self.root.inv()
        &&& self.root.fanout_within(self.max_children as nat)
        &&& self.max_children >= 2
        &&& forall|k: K::V| #[trigger] self@.contains_key(k) ==> self@[k].len() == 32
    }

    /// In a well-formed tree the root hash is the content hash of what the
    /// tree holds, its leaves have no repeated key, and every value hash is
    /// 32 bytes.
    pub proof fn lemma_wf_facts(self)
        requires
            self.wf(),
        ensures
            self.hash_view() == content_hash(self@),
            self@.dom().finite(),
            strictly_sorted::<K>(self.root_node().entries()),
            self.root_node().fanout_within(self.max_fanout()),
            self.max_fanout() >= 2,
            forall|k: K::V| #[trigger] self@.contains_key(k) ==> self@[k].len() == 32,
    {
        lemma_xor_entries_is_content_hash::<K>(self.root.entries());
        lemma_map_of_domain(self.root.entries());
    }

    /// An empty tree whose internal nodes keep at most `max_children`
    /// children: its root is an internal node with no children, the zero
    /// hash and the sentinel key.
    pub fn new(max_children: usize) -> (t: Self)
        requires
            max_children >= 2,
        ensures
            t.wf(),
            t.root_node() is Internal,
            t.root_node().children_view().len() == 0,
            t.root_node().key_view() == K::sentinel_view(),
            t@ == Map::<K::V, Seq<u8>>::empty(),
            t.max_fanout() == max_children,
            t.hash_view() == zero_hash(),
    {
        MerkleSearchTree { root: Node::default(), max_children }
    }

    /// Sets the value of `key` to `value`, storing the value's hash.
    pub fn insert(&mut self, key: K, value: String)
        requires
            old(self).wf(),
        ensures
            final(self).wf(),
            final(self)@ == old(self)@.insert(key@, value_hash(value@)),
            final(self).max_fanout() == old(self).max_fanout(),
            final(self).root_node().fanout_within(final(self).max_fanout()),
            strictly_sorted::<K>(final(self).root_node().entries()),
            exists|hash: NodeHash|
                hash@ == value_hash(value@) && #[trigger] root_after_insert(
                    old(self).root_node(),
                    Node::Leaf { key, hash },
                    old(self).max_fanout(),
                    final(self).root_node(),
                ) && (old(self)@.contains_key(key@) ==> replaced_in_place(
                    old(self).root_node(),
                    final(self).root_node(),
                    Node::Leaf { key, hash },
                )),
    {
        let hash = hash_value(value.as_str());
        let ghost leaf = Node::Leaf { key, hash };
        self.insert_value_hash(key, hash);
        proof {
            assert(root_after_insert(
                old(self).root_node(),
                leaf,
                old(self).max_fanout(),
                self.root_node(),
            ));
        }
    }

    /// Sets the value hash of `key` to `hash`. When the root splits, a new
    /// root above the two halves makes the tree one level taller; otherwise
    /// the root is updated in place. A key already present keeps its slot and
    /// the shape of the tree does not change.
    pub fn insert_value_hash(&mut self, key: K, hash: NodeHash)
        requires
            old(self).wf(),
        ensures
            final(self).wf(),
            final(self)@ == old(self)@.insert(key@, hash@),
            final(self).max_fanout() == old(self).max_fanout(),
            final(self).root_node().fanout_within(final(self).max_fanout()),
            strictly_sorted::<K>(final(self).root_node().entries()),
            root_after_insert(
                old(self).root_node(),
                Node::Leaf { key, hash },
                old(self).max_fanout(),
                final(self).root_node(),
            ),
            old(self)@.contains_key(key@) ==> replaced_in_place(
                old(self).root_node(),
                final(self).root_node(),
                Node::Leaf { key, hash },
            ),
    {
        let leaf = Node::Leaf { key, hash };
        let ghost gleaf = leaf;
        let ghost k = key@;
        let ghost h = hash@;
        let ghost e0 = self.root.entries();
        proof {
            lemma_upsert_map::<K>(e0, k, h);
            lemma_upsert_sorted::<K>(e0, k, h);
        }
        match self.root.insert(leaf, self.max_children) {
            None => {},
            Some(new_sibling) => {
                // The root split: a new root goes above the two halves.
                let mut old_root: Node<K> = Node::default();
                core::mem::swap(&mut self.root, &mut old_root);
                let mut children: Vec<Node<K>> = Vec::new();
                children.push(old_root);
                children.push(new_sibling);
                let mut new_root = Node::Internal {
                    hash: NodeHash::zero(),
                    children,
                    max_key: K::sentinel(),
                };
                new_root.recalculate();
                proof {
                    let cs = new_root.children_view();
                    assert(cs =~= seq![old_root] + seq![new_sibling]);
                    assert(cs[0] == old_root && cs[1] == new_sibling);
                    lemma_entries_of_concat(seq![old_root], seq![new_sibling]);
                    lemma_entries_of_single(old_root);
                    lemma_entries_of_single(new_sibling);
                    lemma_children_hashes(cs);
                    lemma_xor_children(cs);
                    lemma_internal_inv(new_root);
                }
                self.root = new_root;
            },
        }
        proof {
            assert(self@ == map_of(e0).insert(k, h));
            assert forall|x: K::V| #[trigger] self@.contains_key(x) implies self@[x].len() == 32 by {
                if x != k {
                    assert(old(self)@.contains_key(x));
                }
            }
        }
    }

    /// The root hash.
    pub fn hash(&self) -> (r: &NodeHash)
        requires
            self.wf(),
        ensures
            r@ == self.hash_view(),
            r@ == content_hash(self@),
    {
        proof {
            self.lemma_wf_facts();
        }
        self.root.hash()
    }

    /// The root node.
    pub fn root(&self) -> (r: &Node<K>)
        ensures
            *r == self.root_node(),
    {
        &self.root
    }
}

/// Two well-formed trees that hold the same keys with the same value hashes
/// have the same root hash, whatever their fan-out bounds, the order of the
/// inserts that built them, and their shapes.
pub proof fn lemma_hash_determined_by_contents<K: SearchKey>(
    t1: MerkleSearchTree<K>,
    t2: MerkleSearchTree<K>,
)
    requires
        t1.wf(),
        t2.wf(),
        t1@ == t2@,
    ensures
        t1.hash_view() == t2.hash_view(),
{
    t1.lemma_wf_facts();
    t2.lemma_wf_facts();
}

/// Inserting a key with the value it already has leaves the root hash as it
/// was.
pub proof fn lemma_same_value_keeps_hash<K: SearchKey>(
    before: MerkleSearchTree<K>,
    after: MerkleSearchTree<K>,
    k: K::V,
    v: Seq<char>,
)
    requires
        before.wf(),
        after.wf(),
        before@.contains_key(k),
        before@[k] == value_hash(v),
        after@ == before@.insert(k, value_hash(v)),
    ensures
        after.hash_view() == before.hash_view(),
{
    assert(after@ =~= before@);
    lemma_hash_determined_by_contents(before, after);
}

/// Giving a key a value whose hash differs from that of its current value
/// changes the root hash, and the key still has exactly one leaf.
pub proof fn lemma_new_value_changes_hash<K: SearchKey>(
    before: MerkleSearchTree<K>,
    after: MerkleSearchTree<K>,
    k: K::V,
    v1: Seq<char>,
    v2: Seq<char>,
)
    requires
        before.wf(),
        after.wf(),
        before@.contains_key(k),
        before@[k] == value_hash(v1),
        after@ == before@.insert(k, value_hash(v2)),
        value_hash(v1) != value_hash(v2),
    ensures
        after.hash_view() != before.hash_view(),
        after@.dom() == before@.dom(),
        exists|i: int|
            0 <= i < after.root_node().entries().len() && #[trigger] after.root_node().entries()[i].0
                == k,
        forall|i: int, j: int|
            0 <= i < after.root_node().entries().len() && 0 <= j < after.root_node().entries().len()
                && #[trigger] after.root_node().entries()[i].0 == k
                && #[trigger] after.root_node().entries()[j].0 == k ==> i == j,
{
    before.lemma_wf_facts();
    after.lemma_wf_facts();
    K::lemma_strict_total_order();
    let (h1, h2) = (value_hash(v1), value_hash(v2));
    let rest = before@.remove(k);
    assert(after@.remove(k) =~= rest);
    lemma_content_hash_remove(before@, k);
    lemma_content_hash_remove(after@, k);
    let r = content_hash(rest);
    assert(after@.contains_key(k));
    if xor_hash(h1, r) == xor_hash(h2, r) {
        lemma_xor_associates(h1, r, r);
        lemma_xor_associates(h2, r, r);
        lemma_xor_self_cancels(r);
        lemma_xor_zero_identity(h1);
        lemma_xor_zero_identity(h2);
    }
    assert(after@.dom() =~= before@.dom());
    let e = after.root_node().entries();
    lemma_map_of_domain(e);
    assert forall|i: int, j: int|
        0 <= i < e.len() && 0 <= j < e.len() && #[trigger] e[i].0 == k && #[trigger] e[j].0 == k implies i
        == j by {
        if i < j {
            assert(K::precedes(e[i].0, e[j].0));
        } else if j < i {
            assert(K::precedes(e[j].0, e[i].0));
        }
    }
}

/// Two distinct keys whose value hashes are identical cancel out: the root
/// hash is that of the tree's contents without both of them.
pub proof fn lemma_equal_value_hashes_cancel<K: SearchKey>(t: MerkleSearchTree<K>, a: K::V, b: K::V)
    requires
        t.wf(),
        a != b,
        t@.contains_key(a),
        t@.contains_key(b),
        t@[a] == t@[b],
    ensures
        t.hash_view() == content_hash(t@.remove(a).remove(b)),
{
    t.lemma_wf_facts();
    let m = t@;
    let r = content_hash(m.remove(a).remove(b));
    lemma_content_hash_remove(m, a);
    lemma_content_hash_remove(m.remove(a), b);
    lemma_xor_associates(m[a], m[b], r);
    lemma_xor_self_cancels(m[a]);
    lemma_xor_zero_identity(r);
}

} // verus!
