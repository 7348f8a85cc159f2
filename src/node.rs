//! Tree nodes: leaves that hold a key and the hash of its value, and internal
//! nodes that hold a run of children of one kind, the XOR of their hashes and
//! the key of their last child.

use crate::contents::{
    lemma_map_of_domain, lemma_upsert_sorted, lemma_upsert_within, lemma_xor_entries_concat,
    lemma_xor_entries_single, map_of, strictly_sorted, upsert, xor_entries, Entry,
};
use crate::hash::{
    lemma_xor_associates, lemma_xor_replace, lemma_xor_swap_last, xor_hash, zero_hash, NodeHash,
};
use crate::key::SearchKey;
use core::cmp::Ordering;
use vstd::prelude::*;

verus! {

/// A node of the tree.
pub enum Node<K> {
    Internal { hash: NodeHash, children: Vec<Node<K>>, max_key: K },
    Leaf { key: K, hash: NodeHash },
}

/// The entries of a run of sibling nodes, left to right.
pub open spec fn entries_of<K: SearchKey>(nodes: Seq<Node<K>>) -> Seq<Entry<K::V>>
    decreases nodes,
{
    if nodes.len() == 0 {
        Seq::empty()
    } else {
        entries_of(nodes.subrange(0, nodes.len() - 1)) + nodes[nodes.len() - 1].entries()
    }
}

impl<K: SearchKey> Node<K> {
    /// The representative key: a leaf's key, or an internal node's cached
    /// key of its last child.
    pub open spec fn key_view(self) -> K::V {
        match self {
            Node::Internal { max_key, .. } => max_key@,
            Node::Leaf { key, .. } => key@,
        }
    }

    pub open spec fn hash_view(self) -> Seq<u8> {
        match self {
            Node::Internal { hash, .. } => hash@,
            Node::Leaf { hash, .. } => hash@,
        }
    }

    pub open spec fn children_view(self) -> Seq<Node<K>> {
        match self {
            Node::Internal { children, .. } => children@,
            Node::Leaf { .. } => Seq::empty(),
        }
    }

    /// The leaves below this node, left to right.
    pub open spec fn entries(self) -> Seq<Entry<K::V>>
        decreases self,
    {
        match self {
            Node::Leaf { key, hash } => seq![(key@, hash@)],
            Node::Internal { children, .. } => entries_of(children@),
        }
    }

    /// The number of levels of internal nodes above the leaves; an internal
    /// node without children counts as one level.
    pub open spec fn height(self) -> nat
        decreases self,
    {
        match self {
            Node::Leaf { .. } => 0,
            Node::Internal { children, .. } => if children@.len() == 0 {
                1
            } else {
                1 + children@[0].height()
            },
        }
    }

    /// The structural invariant of a subtree: children of one kind and one
    /// height (so all leaves below a node are at one depth), keys
    /// strictly increasing from left to right, every internal node's hash the
    /// XOR of the leaf hashes below it and its key that of its last leaf.
    pub open spec fn inv(self) -> bool
        decreases self,
    {
        match self {
            Node::Leaf { .. } => true,
            Node::Internal { hash, children, max_key } => {
                &&& forall|i: int| 0 <= i < children@.len() ==> (#[trigger] children@[i]).inv()
                &&& forall|i: int|
                    0 <= i < children@.len() ==> (#[trigger] children@[i] is Leaf) == (
                    children@[0] is Leaf)
                &&& forall|i: int|
                    0 <= i < children@.len() ==> (#[trigger] children@[i]).height()
                        == children@[0].height()
                &&& forall|i: int|
                    0 <= i < children@.len() && children@[i] is Internal ==> (
                    #[trigger] children@[i]).entries().len() > 0
                &&& strictly_sorted::<K>(entries_of(children@))
                &&& hash@ == xor_entries(entries_of(children@))
                &&& children@.len() > 0 ==> max_key@ == entries_of(children@).last().0
            }
        }
    }

    /// No internal node in this subtree has more than `max` children.
    pub open spec fn fanout_within(self, max: nat) -> bool
        decreases self,
    {
        match self {
            Node::Leaf { .. } => true,
            Node::Internal { children, .. } => {
                &&& children@.len() <= max
                &&& forall|i: int|
                    0 <= i < children@.len() ==> (#[trigger] children@[i]).fanout_within(max)
            }
        }
    }
}

/// XOR of the hashes of a run of sibling nodes.
pub open spec fn xor_children<K: SearchKey>(nodes: Seq<Node<K>>) -> Seq<u8>
    decreases nodes.len(),
{
    if nodes.len() == 0 {
        zero_hash()
    } else {
        xor_hash(xor_children(nodes.drop_last()), nodes.last().hash_view())
    }
}

pub proof fn lemma_entries_of_concat<K: SearchKey>(a: Seq<Node<K>>, b: Seq<Node<K>>)
    ensures
        entries_of(a + b) == entries_of(a) + entries_of(b),
    decreases b.len(),
{
    if b.len() == 0 {
        assert(a + b =~= a);
        assert(entries_of(a) + entries_of(b) =~= entries_of(a));
    } else {
        let s = a + b;
        let bp = b.subrange(0, b.len() - 1);
        assert(s.subrange(0, s.len() - 1) =~= a + bp);
        assert(s[s.len() - 1] == b[b.len() - 1]);
        lemma_entries_of_concat(a, bp);
        assert(entries_of(a) + entries_of(bp) + b[b.len() - 1].entries() =~= entries_of(a) + (
        entries_of(bp) + b[b.len() - 1].entries()));
    }
}

pub proof fn lemma_entries_of_single<K: SearchKey>(n: Node<K>)
    ensures
        entries_of(seq![n]) == n.entries(),
{
    let s = seq![n];
    assert(s.subrange(0, 0) =~= Seq::<Node<K>>::empty());
    assert(entries_of(Seq::<Node<K>>::empty()) + n.entries() =~= n.entries());
}

/// The entries of a run split around its `i`-th node.
pub proof fn lemma_entries_of_split<K: SearchKey>(s: Seq<Node<K>>, i: int)
    requires
        0 <= i < s.len(),
    ensures
        entries_of(s) == entries_of(s.subrange(0, i)) + s[i].entries() + entries_of(
            s.subrange(i + 1, s.len() as int),
        ),
{
    let a = s.subrange(0, i);
    let b = s.subrange(i + 1, s.len() as int);
    assert(s =~= a + seq![s[i]] + b);
    lemma_entries_of_concat(a + seq![s[i]], b);
    lemma_entries_of_concat(a, seq![s[i]]);
    lemma_entries_of_single(s[i]);
}

/// A run of leaves has one entry per leaf.
pub proof fn lemma_entries_of_leaves<K: SearchKey>(nodes: Seq<Node<K>>)
    requires
        forall|i: int| 0 <= i < nodes.len() ==> #[trigger] nodes[i] is Leaf,
    ensures
        entries_of(nodes).len() == nodes.len(),
        forall|i: int|
            0 <= i < nodes.len() ==> #[trigger] entries_of(nodes)[i] == (
            nodes[i].key_view(),
            nodes[i].hash_view(),
        ),
    decreases nodes.len(),
{
    if nodes.len() > 0 {
        let p = nodes.subrange(0, nodes.len() - 1);
        assert forall|i: int| 0 <= i < p.len() implies #[trigger] p[i] is Leaf by {
            assert(p[i] == nodes[i]);
        }
        lemma_entries_of_leaves(p);
        let last = nodes[nodes.len() - 1];
        assert(last is Leaf);
        assert(last.entries() == seq![(last.key_view(), last.hash_view())]);
        assert(entries_of(nodes) == entries_of(p) + last.entries());
        assert forall|i: int| 0 <= i < nodes.len() implies #[trigger] entries_of(nodes)[i] == (
            nodes[i].key_view(),
            nodes[i].hash_view(),
        ) by {
            if i < p.len() {
                assert(entries_of(nodes)[i] == entries_of(p)[i]);
                assert(p[i] == nodes[i]);
            }
        }
    }
}

/// What a parent reads from a well-formed child: its hash is the XOR of its
/// leaves, and its key is that of its last leaf.
pub proof fn lemma_child_summary<K: SearchKey>(c: Node<K>)
    requires
        c.inv(),
        c is Internal ==> c.entries().len() > 0,
    ensures
        c.hash_view() == xor_entries(c.entries()),
        c.entries().len() > 0,
        c.key_view() == c.entries().last().0,
{
    match c {
        Node::Leaf { key, hash } => {
            lemma_xor_entries_single((key@, hash@));
        },
        Node::Internal { hash, children, max_key } => {
            if children@.len() == 0 {
                assert(entries_of(children@) == Seq::<Entry<K::V>>::empty());
            }
        },
    }
}

/// The XOR of the children's hashes is the XOR of all leaves below them.
pub proof fn lemma_xor_children<K: SearchKey>(nodes: Seq<Node<K>>)
    requires
        forall|i: int|
            0 <= i < nodes.len() ==> (#[trigger] nodes[i]).hash_view() == xor_entries(
                nodes[i].entries(),
            ),
    ensures
        xor_children(nodes) == xor_entries(entries_of(nodes)),
    decreases nodes.len(),
{
    if nodes.len() > 0 {
        let p = nodes.subrange(0, nodes.len() - 1);
        assert(nodes.drop_last() == p);
        assert forall|i: int| 0 <= i < p.len() implies (#[trigger] p[i]).hash_view() == xor_entries(
            p[i].entries(),
        ) by {
            assert(p[i] == nodes[i]);
        }
        lemma_xor_children(p);
        let last = nodes[nodes.len() - 1];
        assert(nodes.last() == last);
        lemma_xor_entries_concat(entries_of(p), last.entries());
    }
}

impl<K: SearchKey> Node<K> {
    /// The representative key.
    pub fn key(&self) -> (r: &K)
        ensures
            r@ == self.key_view(),
    {
        match self {
            Node::Internal { max_key, .. } => max_key,
            Node::Leaf { key, .. } => key,
        }
    }

    /// The node's hash.
    pub fn hash(&self) -> (r: &NodeHash)
        ensures
            r@ == self.hash_view(),
    {
        match self {
            Node::Internal { hash, .. } => hash,
            Node::Leaf { hash, .. } => hash,
        }
    }

    pub fn is_internal(&self) -> (r: bool)
        ensures
            r == self is Internal,
    {
        matches!(self, Node::Internal { .. })
    }
}

/// The children of a well-formed internal node: each well-formed, all of one
/// kind, and no internal child empty.
pub open spec fn children_inv<K: SearchKey>(cs: Seq<Node<K>>) -> bool {
    &&& forall|i: int| 0 <= i < cs.len() ==> (#[trigger] cs[i]).inv()
    &&& forall|i: int| 0 <= i < cs.len() ==> (#[trigger] cs[i] is Leaf) == (cs[0] is Leaf)
    &&& forall|i: int| 0 <= i < cs.len() ==> (#[trigger] cs[i]).height() == cs[0].height()
    &&& forall|i: int|
        0 <= i < cs.len() && cs[i] is Internal ==> (#[trigger] cs[i]).entries().len() > 0
}

pub open spec fn children_within<K: SearchKey>(cs: Seq<Node<K>>, max: nat) -> bool {
    forall|i: int| 0 <= i < cs.len() ==> (#[trigger] cs[i]).fanout_within(max)
}

/// How many leading nodes of a run have keys that precede `k`: in a sorted
/// run, the position of the first node whose key is not less than `k`.
pub open spec fn first_not_preceding<K: SearchKey>(cs: Seq<Node<K>>, k: K::V) -> nat
    decreases cs.len(),
{
    if cs.len() == 0 {
        0
    } else if !K::precedes(cs[0].key_view(), k) {
        0
    } else {
        1 + first_not_preceding::<K>(cs.drop_first(), k)
    }
}

/// The child an insert of `k` descends into: the first whose key is not less
/// than `k`, or the last child when every key is less.
pub open spec fn descent_position<K: SearchKey>(cs: Seq<Node<K>>, k: K::V) -> int {
    let p = first_not_preceding::<K>(cs, k) as int;
    if p < cs.len() {
        p
    } else {
        cs.len() - 1
    }
}

/// A run of leaves after `leaf` is put in: the leaf with its key replaced in
/// the same slot, or, if there is none, the new leaf placed after every key
/// that precedes its own.
pub open spec fn leaf_placed<K: SearchKey>(cs: Seq<Node<K>>, leaf: Node<K>) -> Seq<Node<K>> {
    let p = first_not_preceding::<K>(cs, leaf.key_view()) as int;
    if p < cs.len() && cs[p].key_view() == leaf.key_view() {
        cs.update(p, leaf)
    } else {
        cs.insert(p, leaf)
    }
}

/// `c1` is the run of children `c0` after `leaf` is put in below them and
/// before any split of their parent: at the level above the leaves, as
/// `leaf_placed` says; higher up, the child at the descent position is
/// replaced by what inserting into it gave (itself, then its new sibling if it
/// split), and every other child stays as it was.
pub open spec fn placed<K: SearchKey>(c0: Seq<Node<K>>, leaf: Node<K>, max: nat, c1: Seq<Node<K>>) -> bool
    decreases c0,
{
    if c0.len() == 0 || c0[0] is Leaf {
        c1 == leaf_placed(c0, leaf)
    } else {
        let p = first_not_preceding::<K>(c0, leaf.key_view()) as int;
        let ci = if p < c0.len() {
            p
        } else {
            c0.len() - 1
        };
        let rest = c0.len() - ci - 1;
        let run = c1.subrange(ci, c1.len() - rest);
        &&& ci + rest <= c1.len()
        &&& c1.subrange(0, ci) == c0.subrange(0, ci)
        &&& c1.subrange(c1.len() - rest, c1.len() as int) == c0.subrange(ci + 1, c0.len() as int)
        &&& {
            ||| run.len() == 1 && inserted(c0[ci], leaf, max, run[0], None)
            ||| run.len() == 2 && inserted(c0[ci], leaf, max, run[0], Some(run[1]))
        }
    }
}

/// `new` (and `sib`, if the node split) is what inserting `leaf` into the
/// internal node `old` with fan-out bound `max` gives: the children once the
/// leaf is placed number at most `max` and stay in `new`, or they number more
/// and split by position, the first half staying in `new` and the rest going
/// to `sib`.
pub open spec fn inserted<K: SearchKey>(
    old: Node<K>,
    leaf: Node<K>,
    max: nat,
    new: Node<K>,
    sib: Option<Node<K>>,
) -> bool
    decreases old,
{
    match old {
        Node::Leaf { .. } => false,
        Node::Internal { children, .. } => {
            let c1 = match sib {
                Some(s) => new.children_view() + s.children_view(),
                None => new.children_view(),
            };
            &&& new is Internal
            &&& placed(children@, leaf, max, c1)
            &&& match sib {
                Some(s) => s is Internal && c1.len() > max && new.children_view().len() == c1.len()
                    / 2,
                None => c1.len() <= max,
            }
        },
    }
}

/// `new` has the shape of `old`, node for node, with the leaf whose key is
/// that of `leaf` replaced by `leaf` in the same slot: every internal node
/// keeps its number of children, and each subtree either stays as it was or
/// is itself replaced in place.
pub open spec fn replaced_in_place<K: SearchKey>(old: Node<K>, new: Node<K>, leaf: Node<K>) -> bool
    decreases old,
{
    match old {
        Node::Leaf { .. } => false,
        Node::Internal { children, .. } => {
            &&& new is Internal
            &&& new.children_view().len() == children@.len()
            &&& forall|i: int|
                0 <= i < children@.len() ==> if (#[trigger] children@[i]) is Leaf {
                    new.children_view()[i] == if children@[i].key_view() == leaf.key_view() {
                        leaf
                    } else {
                        children@[i]
                    }
                } else {
                    new.children_view()[i] == children@[i] || replaced_in_place(
                        children@[i],
                        new.children_view()[i],
                        leaf,
                    )
                }
        },
    }
}

/// A position before which every key precedes `k`, and at which the key does
/// not, is the one `first_not_preceding` gives.
pub proof fn lemma_first_not_preceding<K: SearchKey>(cs: Seq<Node<K>>, k: K::V, i: int)
    requires
        0 <= i <= cs.len(),
        forall|j: int| 0 <= j < i ==> K::precedes(#[trigger] cs[j].key_view(), k),
        i < cs.len() ==> !K::precedes(cs[i].key_view(), k),
    ensures
        first_not_preceding::<K>(cs, k) == i,
    decreases cs.len(),
{
    if i > 0 {
        let d = cs.drop_first();
        assert(K::precedes(cs[0].key_view(), k));
        assert forall|j: int| 0 <= j < i - 1 implies K::precedes(#[trigger] d[j].key_view(), k) by {
            assert(d[j] == cs[j + 1]);
        }
        if i < cs.len() {
            assert(d[i - 1] == cs[i]);
        }
        lemma_first_not_preceding::<K>(d, k, i - 1);
    }
}

pub proof fn lemma_children_hashes<K: SearchKey>(cs: Seq<Node<K>>)
    requires
        children_inv(cs),
    ensures
        forall|i: int|
            0 <= i < cs.len() ==> (#[trigger] cs[i]).hash_view() == xor_entries(cs[i].entries()),
{
    assert forall|i: int| 0 <= i < cs.len() implies (#[trigger] cs[i]).hash_view() == xor_entries(
        cs[i].entries(),
    ) by {
        lemma_child_summary(cs[i]);
    }
}

pub proof fn lemma_sorted_parts<K: SearchKey>(a: Seq<Entry<K::V>>, b: Seq<Entry<K::V>>)
    requires
        strictly_sorted::<K>(a + b),
    ensures
        strictly_sorted::<K>(a),
        strictly_sorted::<K>(b),
        forall|i: int, j: int|
            0 <= i < a.len() && 0 <= j < b.len() ==> K::precedes(#[trigger] a[i].0, #[trigger] b[j].0),
{
    let s = a + b;
    assert forall|i: int, j: int| 0 <= i < j < a.len() implies K::precedes(
        #[trigger] a[i].0,
        #[trigger] a[j].0,
    ) by {
        assert(s[i] == a[i] && s[j] == a[j]);
    }
    assert forall|i: int, j: int| 0 <= i < j < b.len() implies K::precedes(
        #[trigger] b[i].0,
        #[trigger] b[j].0,
    ) by {
        assert(s[a.len() + i] == b[i] && s[a.len() + j] == b[j]);
    }
    assert forall|i: int, j: int| 0 <= i < a.len() && 0 <= j < b.len() implies K::precedes(
        #[trigger] a[i].0,
        #[trigger] b[j].0,
    ) by {
        assert(s[i] == a[i] && s[a.len() + j] == b[j]);
    }
}

/// An internal node over well-formed children whose entries are sorted, with
/// hash and key that summarize them, is well formed.
pub proof fn lemma_internal_inv<K: SearchKey>(n: Node<K>)
    requires
        n is Internal,
        children_inv(n.children_view()),
        strictly_sorted::<K>(entries_of(n.children_view())),
        n.hash_view() == xor_entries(entries_of(n.children_view())),
        n.children_view().len() > 0 ==> n.key_view() == n.children_view().last().key_view(),
    ensures
        n.inv(),
        n.children_view().len() > 0 ==> n.entries().len() > 0,
{
    let cs = n.children_view();
    if cs.len() > 0 {
        let last = cs[cs.len() - 1];
        lemma_child_summary(last);
        assert(entries_of(cs) == entries_of(cs.subrange(0, cs.len() - 1)) + last.entries());
    }
}

/// Recomputes from scratch the hash and the representative key of an
/// internal node with the given children.
fn summarize<K: SearchKey>(children: &Vec<Node<K>>, hash: &mut NodeHash, max_key: &mut K)
    ensures
        final(hash)@ == xor_children(children@),
        children@.len() > 0 ==> final(max_key)@ == children@.last().key_view(),
        children@.len() == 0 ==> *final(max_key) == *old(max_key),
{
    let mut acc = NodeHash::zero();
    let mut i: usize = 0;
    while i < children.len()
        invariant
            0 <= i <= children@.len(),
            acc@ == xor_children(children@.subrange(0, i as int)),
        decreases children@.len() - i,
    {
        proof {
            assert(children@.subrange(0, i + 1).drop_last() =~= children@.subrange(0, i as int));
        }
        acc.xor(children[i].hash());
        i = i + 1;
    }
    proof {
        assert(children@.subrange(0, i as int) =~= children@);
    }
    *hash = acc;
    if children.len() > 0 {
        *max_key = children[children.len() - 1].key().clone_key();
    }
}

/// Binary search of a run of leaves, sorted by key, for `key`: `Ok` with its
/// position if some leaf has it, otherwise `Err` with the position where it
/// would go.
fn search_leaves<K: SearchKey>(children: &Vec<Node<K>>, key: &K) -> (r: Result<usize, usize>)
    requires
        forall|i: int, j: int|
            0 <= i < j < children@.len() ==> K::precedes(
                #[trigger] children@[i].key_view(),
                #[trigger] children@[j].key_view(),
            ),
    ensures
        match r {
            Ok(i) => i < children@.len() && children@[i as int].key_view() == key@ && i
                == first_not_preceding::<K>(children@, key@),
            Err(i) => {
                &&& i <= children@.len()
                &&& i == first_not_preceding::<K>(children@, key@)
                &&& forall|j: int| 0 <= j < i ==> K::precedes(#[trigger] children@[j].key_view(), key@)
                &&& forall|j: int|
                    i <= j < children@.len() ==> K::precedes(key@, #[trigger] children@[j].key_view())
            },
        },
{
    proof {
        K::lemma_strict_total_order();
    }
    let mut lo: usize = 0;
    let mut hi: usize = children.len();
    while lo < hi
        invariant
            0 <= lo <= hi <= children@.len(),
            forall|i: int, j: int|
                0 <= i < j < children@.len() ==> K::precedes(
                    #[trigger] children@[i].key_view(),
                    #[trigger] children@[j].key_view(),
                ),
            forall|j: int| 0 <= j < lo ==> K::precedes(#[trigger] children@[j].key_view(), key@),
            forall|j: int| hi <= j < children@.len() ==> K::precedes(key@, #[trigger] children@[j].key_view()),
        decreases hi - lo,
    {
        let mid = lo + (hi - lo) / 2;
        proof {
            K::lemma_strict_total_order();
        }
        match children[mid].key().compare(key) {
            Ordering::Less => {
                lo = mid + 1;
            },
            Ordering::Equal => {
                proof {
                    lemma_first_not_preceding::<K>(children@, key@, mid as int);
                }
                return Ok(mid);
            },
            Ordering::Greater => {
                hi = mid;
            },
        }
    }
    proof {
        lemma_first_not_preceding::<K>(children@, key@, lo as int);
    }
    Err(lo)
}

/// The child to descend into for `key`: the first whose representative key
/// does not precede `key`, or the last child if every one does.
fn descent_index<K: SearchKey>(children: &Vec<Node<K>>, key: &K) -> (r: usize)
    requires
        children@.len() > 0,
    ensures
        r < children@.len(),
        forall|j: int| 0 <= j < r ==> K::precedes(#[trigger] children@[j].key_view(), key@),
        r + 1 < children@.len() ==> !K::precedes(children@[r as int].key_view(), key@),
        r == descent_position::<K>(children@, key@),
{
    let mut i: usize = 0;
    while i < children.len()
        invariant
            0 <= i <= children@.len(),
            forall|j: int| 0 <= j < i ==> K::precedes(#[trigger] children@[j].key_view(), key@),
        decreases children@.len() - i,
    {
        match children[i].key().compare(key) {
            Ordering::Less => {
                i = i + 1;
            },
            _ => {
                proof {
                    lemma_first_not_preceding::<K>(children@, key@, i as int);
                }
                return i;
            },
        }
    }
    proof {
        lemma_first_not_preceding::<K>(children@, key@, i as int);
    }
    children.len() - 1
}

/// Replacing the leaf with key `k` by a new leaf with that key.
proof fn lemma_leaf_replace<K: SearchKey>(c0: Seq<Node<K>>, i: int, leaf: Node<K>)
    requires
        children_inv(c0),
        c0[0] is Leaf,
        strictly_sorted::<K>(entries_of(c0)),
        0 <= i < c0.len(),
        leaf is Leaf,
        c0[i].key_view() == leaf.key_view(),
    ensures
        children_inv(c0.update(i, leaf)),
        c0.update(i, leaf)[0] is Leaf,
        strictly_sorted::<K>(entries_of(c0.update(i, leaf))),
        entries_of(c0.update(i, leaf)) == upsert::<K>(
            entries_of(c0),
            leaf.key_view(),
            leaf.hash_view(),
        ),
        xor_entries(entries_of(c0.update(i, leaf))) == xor_hash(
            xor_hash(xor_entries(entries_of(c0)), c0[i].hash_view()),
            leaf.hash_view(),
        ),
{
    K::lemma_strict_total_order();
    let (k, h) = (leaf.key_view(), leaf.hash_view());
    let c1 = c0.update(i, leaf);
    assert forall|j: int| 0 <= j < c0.len() implies #[trigger] c0[j] is Leaf by {
        assert(c0[j] is Leaf == c0[0] is Leaf);
    }
    assert forall|j: int| 0 <= j < c1.len() implies #[trigger] c1[j] is Leaf by {
        if j != i {
            assert(c1[j] == c0[j]);
        }
    }
    lemma_entries_of_leaves(c0);
    lemma_entries_of_leaves(c1);
    let e0 = entries_of(c0);
    let e1 = entries_of(c1);
    let a = e0.subrange(0, i);
    let c = seq![e0[i]];
    let b = e0.subrange(i + 1, e0.len() as int);
    assert(e0 =~= a + c + b);
    assert(e1 =~= a + seq![(k, h)] + b);
    assert(e0[i].0 == k);
    assert forall|j: int| 0 <= j < a.len() implies K::precedes(#[trigger] a[j].0, k) by {
        assert(a[j] == e0[j]);
        assert(K::precedes(e0[j].0, e0[i].0));
    }
    assert forall|j: int| 0 <= j < b.len() implies K::precedes(k, #[trigger] b[j].0) by {
        assert(b[j] == e0[i + 1 + j]);
        assert(K::precedes(e0[i].0, e0[i + 1 + j].0));
    }
    lemma_upsert_within::<K>(a, c, b, k, h);
    assert(c.drop_last().push((k, h)) =~= seq![(k, h)]);
    lemma_upsert_sorted::<K>(e0, k, h);
    lemma_xor_entries_concat(a + c, b);
    lemma_xor_entries_concat(a, c);
    lemma_xor_entries_concat(a + seq![(k, h)], b);
    lemma_xor_entries_concat(a, seq![(k, h)]);
    lemma_xor_entries_single(e0[i]);
    lemma_xor_entries_single((k, h));
    lemma_xor_replace(xor_entries(a), xor_entries(b), e0[i].1, h);
}

/// Putting a leaf with a new key `k` in at position `i`, after every key that
/// precedes `k`.
proof fn lemma_leaf_add<K: SearchKey>(c0: Seq<Node<K>>, i: int, leaf: Node<K>)
    requires
        children_inv(c0),
        c0.len() > 0 ==> c0[0] is Leaf,
        strictly_sorted::<K>(entries_of(c0)),
        0 <= i <= c0.len(),
        leaf is Leaf,
        forall|j: int| 0 <= j < i ==> K::precedes(#[trigger] c0[j].key_view(), leaf.key_view()),
        forall|j: int| i <= j < c0.len() ==> K::precedes(leaf.key_view(), #[trigger] c0[j].key_view()),
    ensures
        children_inv(c0.insert(i, leaf)),
        c0.insert(i, leaf)[0] is Leaf,
        strictly_sorted::<K>(entries_of(c0.insert(i, leaf))),
        entries_of(c0.insert(i, leaf)) == upsert::<K>(
            entries_of(c0),
            leaf.key_view(),
            leaf.hash_view(),
        ),
        xor_entries(entries_of(c0.insert(i, leaf))) == xor_hash(
            xor_entries(entries_of(c0)),
            leaf.hash_view(),
        ),
{
    K::lemma_strict_total_order();
    let (k, h) = (leaf.key_view(), leaf.hash_view());
    let c1 = c0.insert(i, leaf);
    assert forall|j: int| 0 <= j < c0.len() implies #[trigger] c0[j] is Leaf by {
        assert(c0[j] is Leaf == c0[0] is Leaf);
    }
    assert forall|j: int| 0 <= j < c1.len() implies #[trigger] c1[j] is Leaf by {
        if j < i {
            assert(c1[j] == c0[j]);
        } else if j > i {
            assert(c1[j] == c0[j - 1]);
        }
    }
    lemma_entries_of_leaves(c0);
    lemma_entries_of_leaves(c1);
    let e0 = entries_of(c0);
    let e1 = entries_of(c1);
    let a = e0.subrange(0, i);
    let b = e0.subrange(i, e0.len() as int);
    let empty = Seq::<Entry<K::V>>::empty();
    assert(e0 =~= a + empty + b);
    assert(e1 =~= a + seq![(k, h)] + b);
    assert forall|j: int| 0 <= j < a.len() implies K::precedes(#[trigger] a[j].0, k) by {
        assert(a[j] == e0[j]);
    }
    assert forall|j: int| 0 <= j < b.len() implies K::precedes(k, #[trigger] b[j].0) by {
        assert(b[j] == e0[i + j]);
    }
    lemma_upsert_within::<K>(a, empty, b, k, h);
    lemma_upsert_sorted::<K>(e0, k, h);
    assert(a + empty =~= a);
    lemma_xor_entries_concat(a, b);
    lemma_xor_entries_concat(a + seq![(k, h)], b);
    lemma_xor_entries_concat(a, seq![(k, h)]);
    lemma_xor_entries_single((k, h));
    lemma_xor_swap_last(xor_entries(a), xor_entries(b), h);
}

/// Replacing the child at the descent index by the nodes that inserting into
/// it produced.
proof fn lemma_descend<K: SearchKey>(
    c0: Seq<Node<K>>,
    ci: int,
    k: K::V,
    h: Seq<u8>,
    run: Seq<Node<K>>,
)
    requires
        children_inv(c0),
        c0[0] is Internal,
        strictly_sorted::<K>(entries_of(c0)),
        0 <= ci < c0.len(),
        forall|j: int| 0 <= j < ci ==> K::precedes(#[trigger] c0[j].key_view(), k),
        ci + 1 < c0.len() ==> !K::precedes(c0[ci].key_view(), k),
        forall|j: int|
            0 <= j < run.len() ==> #[trigger] run[j] is Internal && run[j].inv()
                && run[j].entries().len() > 0 && run[j].height() == c0[ci].height(),
        entries_of(run) == upsert::<K>(c0[ci].entries(), k, h),
    ensures
        map_of(entries_of(c0)).contains_key(k) ==> map_of(c0[ci].entries()).contains_key(k),
        ({
            let c1 = c0.subrange(0, ci) + run + c0.subrange(ci + 1, c0.len() as int);
            &&& children_inv(c1)
            &&& c1.len() > 0 ==> c1[0] is Internal
            &&& strictly_sorted::<K>(entries_of(c1))
            &&& entries_of(c1) == upsert::<K>(entries_of(c0), k, h)
            &&& xor_entries(entries_of(c1)) == xor_hash(
                xor_hash(xor_entries(entries_of(c0)), xor_entries(c0[ci].entries())),
                xor_entries(entries_of(run)),
            )
        }),
{
    K::lemma_strict_total_order();
    let pre = c0.subrange(0, ci);
    let post = c0.subrange(ci + 1, c0.len() as int);
    let c1 = pre + run + post;
    let a = entries_of(pre);
    let c = c0[ci].entries();
    let b = entries_of(post);
    let e0 = entries_of(c0);
    lemma_entries_of_split(c0, ci);
    assert(e0 == a + c + b);
    lemma_sorted_parts::<K>(a + c, b);
    lemma_sorted_parts::<K>(a, c);
    assert(c0[ci] is Internal);
    lemma_child_summary(c0[ci]);
    if ci > 0 {
        let prev = c0[ci - 1];
        assert(prev is Internal);
        lemma_child_summary(prev);
        assert(pre.subrange(0, ci - 1) == c0.subrange(0, ci - 1));
        assert(a == entries_of(c0.subrange(0, ci - 1)) + prev.entries());
        assert(a.last() == prev.entries().last());
        assert forall|j: int| 0 <= j < a.len() implies K::precedes(#[trigger] a[j].0, k) by {
            if j < a.len() - 1 {
                assert(K::precedes(a[j].0, a[a.len() - 1].0));
            }
        }
    }
    if ci + 1 < c0.len() {
        let last = c[c.len() - 1];
        assert((a + c)[a.len() + c.len() - 1] == last);
        assert(last.0 == c0[ci].key_view());
        assert(last.0 == k || K::precedes(k, last.0));
        assert forall|j: int| 0 <= j < b.len() implies K::precedes(k, #[trigger] b[j].0) by {
            assert(K::precedes((a + c)[a.len() + c.len() - 1].0, b[j].0));
        }
    } else {
        assert(post =~= Seq::<Node<K>>::empty());
        assert(b == Seq::<Entry<K::V>>::empty());
    }
    lemma_upsert_within::<K>(a, c, b, k, h);
    lemma_upsert_sorted::<K>(e0, k, h);
    if map_of(e0).contains_key(k) {
        lemma_map_of_domain(e0);
        lemma_map_of_domain(c);
        let j = choose|j: int| 0 <= j < e0.len() && #[trigger] e0[j].0 == k;
        if j < a.len() {
            assert(e0[j] == a[j]);
        } else if j >= a.len() + c.len() {
            assert(e0[j] == b[j - a.len() - c.len()]);
        } else {
            assert(e0[j] == c[j - a.len()]);
        }
    }
    lemma_entries_of_concat(pre + run, post);
    lemma_entries_of_concat(pre, run);
    assert(entries_of(c1) == a + entries_of(run) + b);
    assert(a + upsert::<K>(c, k, h) + b == a + entries_of(run) + b);
    assert(children_inv(c1)) by {
        assert forall|j: int| 0 <= j < c1.len() implies (#[trigger] c1[j]).inv() && c1[j] is Internal
            && c1[j].entries().len() > 0 && c1[j].height() == c0[0].height() by {
            if j < pre.len() {
                assert(c1[j] == c0[j]);
            } else if j < pre.len() + run.len() {
                assert(c1[j] == run[j - pre.len()]);
            } else {
                assert(c1[j] == c0[j - run.len() + 1]);
            }
        }
    }
    lemma_xor_entries_concat(a + c, b);
    lemma_xor_entries_concat(a, c);
    lemma_xor_entries_concat(a + entries_of(run), b);
    lemma_xor_entries_concat(a, entries_of(run));
    lemma_xor_replace(xor_entries(a), xor_entries(b), xor_entries(c), xor_entries(entries_of(run)));
}

/// Splitting a run of children by position keeps both halves well formed.
proof fn lemma_split_children<K: SearchKey>(cs: Seq<Node<K>>, mid: int)
    requires
        children_inv(cs),
        strictly_sorted::<K>(entries_of(cs)),
        0 <= mid <= cs.len(),
    ensures
        children_inv(cs.subrange(0, mid)),
        children_inv(cs.subrange(mid, cs.len() as int)),
        strictly_sorted::<K>(entries_of(cs.subrange(0, mid))),
        strictly_sorted::<K>(entries_of(cs.subrange(mid, cs.len() as int))),
        entries_of(cs) == entries_of(cs.subrange(0, mid)) + entries_of(
            cs.subrange(mid, cs.len() as int),
        ),
{
    let head = cs.subrange(0, mid);
    let tail = cs.subrange(mid, cs.len() as int);
    assert(cs =~= head + tail);
    lemma_entries_of_concat(head, tail);
    lemma_sorted_parts::<K>(entries_of(head), entries_of(tail));
    assert forall|j: int| 0 <= j < tail.len() implies (#[trigger] tail[j] is Leaf) == (
    tail[0] is Leaf) by {
        assert(tail[j] == cs[mid + j]);
        assert(tail[0] == cs[mid]);
    }
    assert forall|j: int| 0 <= j < tail.len() implies (#[trigger] tail[j]).inv() && (tail[j] is Internal
        ==> tail[j].entries().len() > 0) by {
        assert(tail[j] == cs[mid + j]);
    }
    assert forall|j: int| 0 <= j < head.len() implies (#[trigger] head[j] is Leaf) == (
    head[0] is Leaf) by {
        assert(head[j] == cs[j]);
    }
}

impl<K: SearchKey> Node<K> {
    /// Recomputes an internal node's hash and representative key from its
    /// children; a leaf is left as it is.
    pub fn recalculate(&mut self)
        ensures
            *old(self) is Leaf ==> *final(self) == *old(self),
            *old(self) is Internal ==> {
                &&& *final(self) is Internal
                &&& final(self).children_view() == old(self).children_view()
                &&& final(self).hash_view() == xor_children(old(self).children_view())
                &&& old(self).children_view().len() > 0 ==> final(self).key_view()
                    == old(self).children_view().last().key_view()
                &&& old(self).children_view().len() == 0 ==> final(self).key_view()
                    == old(self).key_view()
            },
    {
        match self {
            Node::Internal { children, hash, max_key } => {
                summarize(children, hash, max_key);
            },
            Node::Leaf { .. } => {},
        }
    }
}

/// Upserts a leaf into a run of leaves, keeping the node's hash up to date
/// incrementally: the replaced leaf's hash is cancelled and the new one
/// applied.
fn insert_into_leaves<K: SearchKey>(
    self_hash: &mut NodeHash,
    children: &mut Vec<Node<K>>,
    new_node: Node<K>,
)
    requires
        children_inv(old(children)@),
        old(children)@.len() > 0 ==> old(children)@[0] is Leaf,
        strictly_sorted::<K>(entries_of(old(children)@)),
        old(self_hash)@ == xor_entries(entries_of(old(children)@)),
        new_node is Leaf,
    ensures
        final(children)@ == leaf_placed(old(children)@, new_node),
        children_inv(final(children)@),
        final(children)@[0] is Leaf,
        strictly_sorted::<K>(entries_of(final(children)@)),
        final(self_hash)@ == xor_entries(entries_of(final(children)@)),
        entries_of(final(children)@) == upsert::<K>(
            entries_of(old(children)@),
            new_node.key_view(),
            new_node.hash_view(),
        ),
        0 < final(children)@.len() <= old(children)@.len() + 1,
        forall|i: int| 0 <= i < final(children)@.len() ==> #[trigger] final(children)@[i] is Leaf,
        map_of(entries_of(old(children)@)).contains_key(new_node.key_view()) ==> {
            &&& final(children)@.len() == old(children)@.len()
            &&& forall|i: int|
                0 <= i < old(children)@.len() ==> #[trigger] final(children)@[i] == if old(
                    children,
                )@[i].key_view() == new_node.key_view() {
                    new_node
                } else {
                    old(children)@[i]
                }
        },
{
    let ghost c0 = children@;
    let ghost k = new_node.key_view();
    proof {
        K::lemma_strict_total_order();
        assert forall|j: int| 0 <= j < c0.len() implies #[trigger] c0[j] is Leaf by {
            assert(c0[j] is Leaf == c0[0] is Leaf);
        }
        lemma_entries_of_leaves(c0);
        assert forall|i: int, j: int| 0 <= i < j < c0.len() implies K::precedes(
            #[trigger] c0[i].key_view(),
            #[trigger] c0[j].key_view(),
        ) by {
            assert(K::precedes(entries_of(c0)[i].0, entries_of(c0)[j].0));
        }
        lemma_map_of_domain(entries_of(c0));
    }
    match search_leaves(children, new_node.key()) {
        Ok(index) => {
            proof {
                lemma_leaf_replace(c0, index as int, new_node);
            }
            self_hash.xor(children[index].hash());
            children[index] = new_node;
            self_hash.xor(children[index].hash());
            proof {
                assert forall|i: int| 0 <= i < c0.len() implies #[trigger] children@[i] == if c0[i].key_view()
                    == k {
                    new_node
                } else {
                    c0[i]
                } by {
                    if i < index {
                        assert(K::precedes(c0[i].key_view(), c0[index as int].key_view()));
                    } else if i > index {
                        assert(K::precedes(c0[index as int].key_view(), c0[i].key_view()));
                    }
                }
            }
        },
        Err(index) => {
            proof {
                lemma_leaf_add(c0, index as int, new_node);
                if map_of(entries_of(c0)).contains_key(k) {
                    let j = choose|j: int|
                        0 <= j < c0.len() && #[trigger] entries_of(c0)[j].0 == k;
                    if j < index {
                        assert(K::precedes(c0[j].key_view(), k));
                    } else {
                        assert(K::precedes(k, c0[j].key_view()));
                    }
                }
            }
            children.insert(index, new_node);
            self_hash.xor(children[index].hash());
        },
    }
    proof {
        let c1 = children@;
        assert forall|j: int| 0 <= j < c1.len() implies #[trigger] c1[j] is Leaf by {
            assert(c1[j] is Leaf == c1[0] is Leaf);
        }
    }
}

/// Finishes an insert into an internal node whose children are up to date:
/// if it has more than `max_children` children, it splits by position, the
/// first half staying and the rest going to a new sibling, and both halves
/// have their hash and key recomputed from scratch; otherwise only its key is
/// refreshed from its last child.
fn split_if_needed<K: SearchKey>(
    self_hash: &mut NodeHash,
    children: &mut Vec<Node<K>>,
    max_key: &mut K,
    max_children: usize,
) -> (r: Option<Node<K>>)
    requires
        children_inv(old(children)@),
        strictly_sorted::<K>(entries_of(old(children)@)),
        old(self_hash)@ == xor_entries(entries_of(old(children)@)),
        children_within(old(children)@, max_children as nat),
        0 < old(children)@.len() <= max_children + 1,
        max_children >= 2,
    ensures
        ({
            let c = old(children)@;
            let fin = Node::Internal {
                hash: *final(self_hash),
                children: *final(children),
                max_key: *final(max_key),
            };
            &&& fin.inv()
            &&& fin.fanout_within(max_children as nat)
            &&& fin.entries().len() > 0
            &&& fin.height() == 1 + c[0].height()
            &&& r matches None ==> {
                &&& c.len() <= max_children
                &&& final(children)@ == c
                &&& fin.entries() == entries_of(c)
            }
            &&& r matches Some(sib) ==> {
                &&& c.len() > max_children
                &&& final(children)@ == c.subrange(0, (c.len() / 2) as int)
                &&& sib.children_view() == c.subrange((c.len() / 2) as int, c.len() as int)
                &&& sib is Internal
                &&& sib.inv()
                &&& sib.fanout_within(max_children as nat)
                &&& sib.entries().len() > 0
                &&& sib.height() == 1 + c[0].height()
                &&& fin.entries() + sib.entries() == entries_of(c)
            }
        }),
{
    if children.len() > max_children {
        let mid = children.len() / 2;
        let ghost cs = children@;
        proof {
            lemma_split_children(cs, mid as int);
        }
        let sibling_children = children.split_off(mid);
        let mut new_sibling = Node::Internal {
            hash: NodeHash::zero(),
            children: sibling_children,
            max_key: K::sentinel(),
        };
        new_sibling.recalculate();
        summarize(children, self_hash, max_key);
        proof {
            lemma_children_hashes(children@);
            lemma_children_hashes(new_sibling.children_view());
            lemma_xor_children(children@);
            lemma_xor_children(new_sibling.children_view());
            lemma_internal_inv(new_sibling);
            let fin = Node::Internal { hash: *self_hash, children: *children, max_key: *max_key };
            lemma_internal_inv(fin);
            assert(forall|i: int|
                0 <= i < children@.len() ==> #[trigger] children@[i] == cs[i]);
            assert(forall|i: int|
                0 <= i < new_sibling.children_view().len() ==> #[trigger] new_sibling.children_view()[i]
                    == cs[mid + i]);
            assert(new_sibling.children_view()[0] == cs[mid as int]);
        }
        Some(new_sibling)
    } else {
        *max_key = children[children.len() - 1].key().clone_key();
        proof {
            let fin = Node::Internal { hash: *self_hash, children: *children, max_key: *max_key };
            lemma_internal_inv(fin);
        }
        None
    }
}

impl<K: SearchKey> Default for Node<K> {
    /// An internal node with no children: zero hash and the sentinel key.
    fn default() -> (r: Node<K>)
        ensures
            r is Internal,
            r.children_view().len() == 0,
            r.hash_view() == zero_hash(),
            r.key_view() == K::sentinel_view(),
            r.inv(),
            r.entries().len() == 0,
            r.height() == 1,
    {
        let r = Node::Internal { hash: NodeHash::zero(), children: Vec::new(), max_key: K::sentinel() };
        proof {
            assert(entries_of(r.children_view()) == Seq::<(K::V, Seq<u8>)>::empty());
        }
        r
    }
}

/// After descending: the children with the descent child replaced by what
/// inserting into it gave are placed as `placed` says, stay well formed and
/// sorted, and hold the upserted entries.
proof fn lemma_after_descent<K: SearchKey>(
    c0: Seq<Node<K>>,
    ci: int,
    leaf: Node<K>,
    max: nat,
    run: Seq<Node<K>>,
    c1: Seq<Node<K>>,
)
    requires
        children_inv(c0),
        c0[0] is Internal,
        strictly_sorted::<K>(entries_of(c0)),
        children_within(c0, max),
        c0.len() <= max,
        0 <= ci < c0.len(),
        ci == descent_position::<K>(c0, leaf.key_view()),
        forall|j: int| 0 <= j < ci ==> K::precedes(#[trigger] c0[j].key_view(), leaf.key_view()),
        ci + 1 < c0.len() ==> !K::precedes(c0[ci].key_view(), leaf.key_view()),
        run.len() == 1 || run.len() == 2,
        run.len() == 1 ==> inserted(c0[ci], leaf, max, run[0], None),
        run.len() == 2 ==> inserted(c0[ci], leaf, max, run[0], Some(run[1])),
        forall|j: int|
            0 <= j < run.len() ==> #[trigger] run[j] is Internal && run[j].inv()
                && run[j].entries().len() > 0 && run[j].height() == c0[ci].height()
                && run[j].fanout_within(max),
        entries_of(run) == upsert::<K>(c0[ci].entries(), leaf.key_view(), leaf.hash_view()),
        map_of(c0[ci].entries()).contains_key(leaf.key_view()) ==> run.len() == 1,
        c1 == c0.subrange(0, ci) + run + c0.subrange(ci + 1, c0.len() as int),
    ensures
        placed(c0, leaf, max, c1),
        children_inv(c1),
        c1[0] is Internal,
        strictly_sorted::<K>(entries_of(c1)),
        entries_of(c1) == upsert::<K>(entries_of(c0), leaf.key_view(), leaf.hash_view()),
        xor_entries(entries_of(c1)) == xor_hash(
            xor_hash(xor_entries(entries_of(c0)), xor_entries(c0[ci].entries())),
            xor_entries(entries_of(run)),
        ),
        children_within(c1, max),
        0 < c1.len() <= max + 1,
        c1[0].height() == c0[0].height(),
        map_of(entries_of(c0)).contains_key(leaf.key_view()) ==> run.len() == 1 && c1 == c0.update(
            ci,
            run[0],
        ),
        map_of(entries_of(c0)).contains_key(leaf.key_view()) ==> map_of(
            c0[ci].entries(),
        ).contains_key(leaf.key_view()),
{
    let k = leaf.key_view();
    lemma_descend(c0, ci, k, leaf.hash_view(), run);
    let rest = c0.len() - ci - 1;
    assert(c1.subrange(0, ci) =~= c0.subrange(0, ci));
    assert(c1.subrange(c1.len() - rest, c1.len() as int) =~= c0.subrange(ci + 1, c0.len() as int));
    assert(c1.subrange(ci, c1.len() - rest) =~= run);
    assert forall|i: int| 0 <= i < c1.len() implies (#[trigger] c1[i]).fanout_within(max) by {
        if i < ci {
            assert(c1[i] == c0[i]);
        } else if i < ci + run.len() {
            assert(c1[i] == run[i - ci]);
        } else {
            assert(c1[i] == c0[i - run.len() + 1]);
        }
    }
    if ci == 0 {
        assert(c1[0] == run[0]);
    } else {
        assert(c1[0] == c0[0]);
    }
    if map_of(entries_of(c0)).contains_key(k) {
        assert(c1 =~= c0.update(ci, run[0]));
    }
}

/// At the level above the leaves, replacing the leaf with the new leaf's key
/// in its slot is a replacement in place.
proof fn lemma_replaced_leaves<K: SearchKey>(old: Node<K>, new: Node<K>, leaf: Node<K>)
    requires
        old is Internal,
        new is Internal,
        forall|i: int| 0 <= i < old.children_view().len() ==> #[trigger] old.children_view()[i] is Leaf,
        new.children_view().len() == old.children_view().len(),
        forall|i: int|
            0 <= i < old.children_view().len() ==> #[trigger] new.children_view()[i] == if old.children_view()[i].key_view()
                == leaf.key_view() {
                leaf
            } else {
                old.children_view()[i]
            },
    ensures
        replaced_in_place(old, new, leaf),
{
}

/// Higher up, replacing the descent child by its replacement in place is a
/// replacement in place.
proof fn lemma_replaced_above<K: SearchKey>(old: Node<K>, new: Node<K>, leaf: Node<K>, ci: int)
    requires
        old is Internal,
        new is Internal,
        0 <= ci < old.children_view().len(),
        forall|i: int|
            0 <= i < old.children_view().len() ==> #[trigger] old.children_view()[i] is Internal,
        new.children_view() == old.children_view().update(ci, new.children_view()[ci]),
        replaced_in_place(old.children_view()[ci], new.children_view()[ci], leaf),
    ensures
        replaced_in_place(old, new, leaf),
{
    assert forall|i: int| 0 <= i < old.children_view().len() implies new.children_view()[i]
        == old.children_view()[i] || replaced_in_place(
        old.children_view()[i],
        new.children_view()[i],
        leaf,
    ) by {
        if i != ci {
            assert(new.children_view()[i] == old.children_view()[i]);
        }
    }
}

/// Having placed the leaf below an internal node and split it if needed
/// gives what `inserted` describes.
proof fn lemma_inserted<K: SearchKey>(
    old: Node<K>,
    leaf: Node<K>,
    max: nat,
    c1: Seq<Node<K>>,
    new: Node<K>,
    sib: Option<Node<K>>,
)
    requires
        old is Internal,
        new is Internal,
        placed(old.children_view(), leaf, max, c1),
        sib matches None ==> c1.len() <= max && new.children_view() == c1,
        sib matches Some(s) ==> {
            &&& s is Internal
            &&& c1.len() > max
            &&& new.children_view() == c1.subrange(0, (c1.len() / 2) as int)
            &&& s.children_view() == c1.subrange((c1.len() / 2) as int, c1.len() as int)
        },
    ensures
        inserted(old, leaf, max, new, sib),
{
    if let Some(s) = sib {
        assert(new.children_view() + s.children_view() =~= c1);
    }
}

impl<K: SearchKey> Node<K> {
    /// Inserts a leaf into the subtree of this internal node, replacing the
    /// leaf with the same key if there is one. Returns the new right sibling
    /// when this node had to split to stay within `max_children`.
    pub fn insert(&mut self, new_node: Node<K>, max_children: usize) -> (r: Option<Node<K>>)
        requires
            *old(self) is Internal,
            old(self).inv(),
            old(self).fanout_within(max_children as nat),
            max_children >= 2,
            new_node is Leaf,
        ensures
            inserted(*old(self), new_node, max_children as nat, *final(self), r),
            *final(self) is Internal,
            final(self).inv(),
            final(self).fanout_within(max_children as nat),
            final(self).entries().len() > 0,
            final(self).height() == old(self).height(),
            r matches None ==> final(self).entries() == upsert::<K>(
                old(self).entries(),
                new_node.key_view(),
                new_node.hash_view(),
            ),
            r matches Some(sib) ==> {
                &&& sib is Internal
                &&& sib.inv()
                &&& sib.fanout_within(max_children as nat)
                &&& sib.entries().len() > 0
                &&& sib.height() == old(self).height()
                &&& final(self).entries() + sib.entries() == upsert::<K>(
                    old(self).entries(),
                    new_node.key_view(),
                    new_node.hash_view(),
                )
            },
            map_of(old(self).entries()).contains_key(new_node.key_view()) ==> {
                &&& r is None
                &&& replaced_in_place(*old(self), *final(self), new_node)
            },
        decreases *old(self),
    {
        let ghost k = new_node.key_view();
        let ghost h = new_node.hash_view();
        let ghost max = max_children as nat;
        let ghost leaf = new_node;
        let ghost e0 = old(self).entries();
        let ghost mut path: int = 0;
        match self {
            // Only internal nodes take inserts; the precondition rules this out.
            Node::Leaf { .. } => None,
            Node::Internal { hash: self_hash, children, max_key } => {
                let ghost c0 = children@;
                let are_children_leaves = children.len() == 0 || !children[0].is_internal();
                if are_children_leaves {
                    insert_into_leaves(self_hash, children, new_node);
                    proof {
                        let c1 = children@;
                        assert forall|i: int| 0 <= i < c1.len() implies (
                        #[trigger] c1[i]).fanout_within(max) by {
                            assert(c1[i] is Leaf);
                        }
                        assert(c1[0].height() == 0);
                        if c0.len() > 0 {
                            assert(c0[0].height() == 0);
                        }
                    }
                } else {
                    let child_index = descent_index(children, new_node.key());
                    let ghost ci = child_index as int;
                    let ghost old_child = c0[ci];
                    proof {
                        assert(old_child is Internal == c0[0] is Internal);
                        assert(old_child.height() == c0[0].height());
                        lemma_child_summary(old_child);
                        assert(old_child.fanout_within(max));
                    }
                    let old_child_hash = *children[child_index].hash();
                    // Descend, and take back the child's new sibling if it split.
                    let mut child = children.remove(child_index);
                    let new_sibling_from_child = child.insert(new_node, max_children);
                    let new_child_hash = *child.hash();
                    let ghost sib_opt = new_sibling_from_child;
                    let ghost run = match sib_opt {
                        None => seq![child],
                        Some(sib) => seq![child, sib],
                    };
                    proof {
                        lemma_child_summary(child);
                    }
                    children.insert(child_index, child);
                    self_hash.xor(&old_child_hash);
                    self_hash.xor(&new_child_hash);
                    if let Some(new_sibling) = new_sibling_from_child {
                        let insert_at = child_index + 1;
                        children.insert(insert_at, new_sibling);
                        self_hash.xor(children[insert_at].hash());
                        proof {
                            lemma_child_summary(new_sibling);
                            lemma_entries_of_concat(seq![child], seq![new_sibling]);
                            assert(seq![child] + seq![new_sibling] =~= run);
                            lemma_entries_of_single(new_sibling);
                            lemma_xor_entries_concat(child.entries(), new_sibling.entries());
                            lemma_xor_associates(
                                xor_hash(old(self).hash_view(), old_child.hash_view()),
                                child.hash_view(),
                                new_sibling.hash_view(),
                            );
                        }
                    }
                    proof {
                        lemma_entries_of_single(child);
                        assert(children@ =~= c0.subrange(0, ci) + run + c0.subrange(
                            ci + 1,
                            c0.len() as int,
                        ));
                        lemma_after_descent(c0, ci, leaf, max, run, children@);
                        path = ci;
                    }
                }
                let ghost c1 = children@;
                let r = split_if_needed(self_hash, children, max_key, max_children);
                proof {
                    let fin = Node::Internal { hash: *self_hash, children: *children, max_key: *max_key };
                    lemma_inserted(*old(self), leaf, max, c1, fin, r);
                    if map_of(e0).contains_key(k) {
                        if are_children_leaves {
                            assert forall|i: int| 0 <= i < c0.len() implies #[trigger] c0[i] is Leaf by {
                                assert(c0[i] is Leaf == c0[0] is Leaf);
                            }
                            lemma_replaced_leaves(*old(self), fin, leaf);
                        } else {
                            assert forall|i: int| 0 <= i < c0.len() implies #[trigger] c0[i] is Internal by {
                                assert(c0[i] is Leaf == c0[0] is Leaf);
                            }
                            lemma_replaced_above(*old(self), fin, leaf, path);
                        }
                    }
                }
                r
            },
        }
    }
}

} // verus!
