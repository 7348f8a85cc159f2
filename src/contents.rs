//! The mathematical model of what a tree holds: the run of its leaves in key
//! order, each a key view with its value hash, and the map from keys to value
//! hashes that the run denotes.

use crate::hash::{
    lemma_xor_associates, lemma_xor_commutes, lemma_xor_zero_identity, xor_hash, zero_hash,
};
use crate::key::SearchKey;
use vstd::prelude::*;

verus! {

/// A leaf as the model sees it: a key view and a value hash.
pub type Entry<V> = (V, Seq<u8>);

/// XOR of the hashes of a run of entries.
pub open spec fn xor_entries<V>(s: Seq<Entry<V>>) -> Seq<u8>
    decreases s.len(),
{
    if s.len() == 0 {
        zero_hash()
    } else {
        xor_hash(xor_entries(s.drop_last()), s.last().1)
    }
}

/// The map from keys to hashes that a run of entries denotes; a later entry
/// wins over an earlier one with the same key.
pub open spec fn map_of<V>(s: Seq<Entry<V>>) -> Map<V, Seq<u8>>
    decreases s.len(),
{
    if s.len() == 0 {
        Map::empty()
    } else {
        map_of(s.drop_last()).insert(s.last().0, s.last().1)
    }
}

/// Keys strictly increase along the run (so no key occurs twice).
pub open spec fn strictly_sorted<K: SearchKey>(s: Seq<Entry<K::V>>) -> bool {
    forall|i: int, j: int| 0 <= i < j < s.len() ==> K::precedes(#[trigger] s[i].0, #[trigger] s[j].0)
}

/// The run after key `k` is given hash `h`: the entry with key `k` is
/// replaced in place, or, if there is none, a new entry goes in after every
/// key that precedes `k`.
pub open spec fn upsert<K: SearchKey>(s: Seq<Entry<K::V>>, k: K::V, h: Seq<u8>) -> Seq<Entry<K::V>>
    decreases s.len(),
{
    if s.len() == 0 {
        seq![(k, h)]
    } else if K::precedes(s.last().0, k) {
        s.push((k, h))
    } else if s.last().0 == k {
        s.drop_last().push((k, h))
    } else {
        upsert::<K>(s.drop_last(), k, h).push(s.last())
    }
}

/// The XOR of all hashes of a finite map, in no particular order.
pub open spec fn content_hash<V>(m: Map<V, Seq<u8>>) -> Seq<u8>
    decreases m.dom().len(),
    when m.dom().finite()
{
    if m.dom().len() == 0 {
        zero_hash()
    } else {
        let k = m.dom().choose();
        xor_hash(m[k], content_hash(m.remove(k)))
    }
}

pub proof fn lemma_content_hash_remove<V>(m: Map<V, Seq<u8>>, k: V)
    requires
        m.dom().finite(),
        m.dom().contains(k),
    ensures
        content_hash(m) == xor_hash(m[k], content_hash(m.remove(k))),
    decreases m.dom().len(),
{
    let j = m.dom().choose();
    if j != k {
        let mj = m.remove(j);
        let mk = m.remove(k);
        lemma_content_hash_remove(mj, k);
        lemma_content_hash_remove(mk, j);
        assert(mj.remove(k) =~= mk.remove(j));
        let rest = content_hash(mj.remove(k));
        lemma_xor_associates(m[j], m[k], rest);
        lemma_xor_associates(m[k], m[j], rest);
        lemma_xor_commutes(m[j], m[k]);
    }
}

pub proof fn lemma_content_hash_insert<V>(m: Map<V, Seq<u8>>, k: V, h: Seq<u8>)
    requires
        m.dom().finite(),
        !m.dom().contains(k),
    ensures
        content_hash(m.insert(k, h)) == xor_hash(h, content_hash(m)),
{
    lemma_content_hash_remove(m.insert(k, h), k);
    assert(m.insert(k, h).remove(k) =~= m);
}

pub proof fn lemma_xor_entries_concat<V>(a: Seq<Entry<V>>, b: Seq<Entry<V>>)
    ensures
        xor_entries(a + b) == xor_hash(xor_entries(a), xor_entries(b)),
    decreases b.len(),
{
    if b.len() == 0 {
        assert(a + b =~= a);
        lemma_xor_zero_identity(xor_entries(a));
    } else {
        assert((a + b).drop_last() =~= a + b.drop_last());
        lemma_xor_entries_concat(a, b.drop_last());
        lemma_xor_associates(xor_entries(a), xor_entries(b.drop_last()), b.last().1);
    }
}

pub proof fn lemma_xor_entries_single<V>(e: Entry<V>)
    requires
        e.1.len() == 32,
    ensures
        xor_entries(seq![e]) == e.1,
{
    let s = seq![e];
    assert(s.drop_last() =~= Seq::<Entry<V>>::empty());
    assert(xor_entries(s.drop_last()) == zero_hash());
    assert(s.last() == e);
    lemma_xor_zero_identity(e.1);
}

pub proof fn lemma_map_of_domain<V>(s: Seq<Entry<V>>)
    ensures
        map_of(s).dom().finite(),
        forall|k: V|
            map_of(s).dom().contains(k) <==> exists|i: int| 0 <= i < s.len() && #[trigger] s[i].0 == k,
    decreases s.len(),
{
    if s.len() > 0 {
        let p = s.drop_last();
        lemma_map_of_domain(p);
        assert forall|k: V| map_of(s).dom().contains(k) implies exists|i: int|
            0 <= i < s.len() && #[trigger] s[i].0 == k by {
            if k != s.last().0 {
                let i = choose|i: int| 0 <= i < p.len() && #[trigger] p[i].0 == k;
                assert(s[i].0 == k);
            } else {
                assert(s[s.len() - 1].0 == k);
            }
        }
        assert forall|k: V| (exists|i: int| 0 <= i < s.len() && #[trigger] s[i].0 == k) implies map_of(
            s,
        ).dom().contains(k) by {
            let i = choose|i: int| 0 <= i < s.len() && #[trigger] s[i].0 == k;
            if i < s.len() - 1 {
                assert(p[i].0 == k);
            }
        }
    }
}

/// On a run without repeated keys, the XOR of the run is the content hash of
/// the map it denotes.
pub proof fn lemma_xor_entries_is_content_hash<K: SearchKey>(s: Seq<Entry<K::V>>)
    requires
        strictly_sorted::<K>(s),
    ensures
        xor_entries(s) == content_hash(map_of(s)),
    decreases s.len(),
{
    if s.len() > 0 {
        let p = s.drop_last();
        K::lemma_strict_total_order();
        assert(strictly_sorted::<K>(p));
        lemma_xor_entries_is_content_hash::<K>(p);
        lemma_map_of_domain(p);
        if map_of(p).dom().contains(s.last().0) {
            let i = choose|i: int| 0 <= i < p.len() && #[trigger] p[i].0 == s.last().0;
            assert(K::precedes(s[i].0, s[s.len() - 1].0));
        }
        lemma_content_hash_insert(map_of(p), s.last().0, s.last().1);
        lemma_xor_commutes(xor_entries(p), s.last().1);
    }
}

/// Upserting into a run whose keys before `c` all precede `k` and whose keys
/// after `c` are all preceded by `k` only touches `c`.
pub proof fn lemma_upsert_within<K: SearchKey>(
    a: Seq<Entry<K::V>>,
    c: Seq<Entry<K::V>>,
    b: Seq<Entry<K::V>>,
    k: K::V,
    h: Seq<u8>,
)
    requires
        forall|i: int| 0 <= i < a.len() ==> K::precedes(#[trigger] a[i].0, k),
        forall|i: int| 0 <= i < b.len() ==> K::precedes(k, #[trigger] b[i].0),
    ensures
        upsert::<K>(a + c + b, k, h) == a + upsert::<K>(c, k, h) + b,
    decreases b.len(), c.len(),
{
    K::lemma_strict_total_order();
    if b.len() > 0 {
        let s = a + c + b;
        assert(s.drop_last() =~= a + c + b.drop_last());
        assert(s.last() == b.last());
        assert(K::precedes(k, b.last().0));
        lemma_upsert_within::<K>(a, c, b.drop_last(), k, h);
        assert(upsert::<K>(s, k, h) == upsert::<K>(s.drop_last(), k, h).push(b.last()));
        assert(a + upsert::<K>(c, k, h) + b =~= (a + upsert::<K>(c, k, h) + b.drop_last()).push(
            b.last(),
        ));
    } else if c.len() > 0 {
        let s = a + c;
        assert(a + c + b =~= s);
        assert(a + upsert::<K>(c, k, h) + b =~= a + upsert::<K>(c, k, h));
        assert(s.last() == c.last());
        assert(s.drop_last() =~= a + c.drop_last());
        if K::precedes(c.last().0, k) {
            assert(s.push((k, h)) =~= a + c.push((k, h)));
        } else if c.last().0 == k {
            assert(s.drop_last().push((k, h)) =~= a + c.drop_last().push((k, h)));
        } else {
            lemma_upsert_within::<K>(a, c.drop_last(), b, k, h);
            assert(a + c.drop_last() + b =~= a + c.drop_last());
            assert(a + upsert::<K>(c.drop_last(), k, h) + b =~= a + upsert::<K>(
                c.drop_last(),
                k,
                h,
            ));
            assert((a + upsert::<K>(c.drop_last(), k, h)).push(c.last()) =~= a + upsert::<K>(
                c.drop_last(),
                k,
                h,
            ).push(c.last()));
        }
    } else {
        assert(a + c + b =~= a);
        assert(a + upsert::<K>(c, k, h) + b =~= a.push((k, h)));
        if a.len() > 0 {
            assert(K::precedes(a.last().0, k));
        }
    }
}

pub proof fn lemma_upsert_sorted<K: SearchKey>(s: Seq<Entry<K::V>>, k: K::V, h: Seq<u8>)
    requires
        strictly_sorted::<K>(s),
    ensures
        strictly_sorted::<K>(upsert::<K>(s, k, h)),
        upsert::<K>(s, k, h).len() > 0,
        upsert::<K>(s, k, h).last().0 == k || (s.len() > 0 && upsert::<K>(s, k, h).last() == s.last()),
    decreases s.len(),
{
    K::lemma_strict_total_order();
    if s.len() > 0 {
        let p = s.drop_last();
        assert(strictly_sorted::<K>(p));
        if K::precedes(s.last().0, k) {
            assert forall|i: int| 0 <= i < s.len() implies K::precedes(#[trigger] s[i].0, k) by {
                if i < s.len() - 1 {
                    assert(K::precedes(s[i].0, s[s.len() - 1].0));
                }
            }
        } else if s.last().0 == k {
            assert forall|i: int| 0 <= i < p.len() implies K::precedes(#[trigger] p[i].0, k) by {
                assert(K::precedes(s[i].0, s[s.len() - 1].0));
            }
        } else {
            lemma_upsert_sorted::<K>(p, k, h);
            let u = upsert::<K>(p, k, h);
            assert(K::precedes(k, s.last().0));
            assert forall|i: int| 0 <= i < u.len() implies K::precedes(#[trigger] u[i].0, s.last().0) by {
                lemma_upsert_below::<K>(p, k, h, s.last().0);
            }
        }
    }
}

proof fn lemma_upsert_below<K: SearchKey>(s: Seq<Entry<K::V>>, k: K::V, h: Seq<u8>, y: K::V)
    requires
        K::precedes(k, y),
        forall|i: int| 0 <= i < s.len() ==> K::precedes(#[trigger] s[i].0, y),
    ensures
        forall|i: int|
            0 <= i < upsert::<K>(s, k, h).len() ==> K::precedes(#[trigger] upsert::<K>(s, k, h)[i].0, y),
    decreases s.len(),
{
    let u = upsert::<K>(s, k, h);
    if s.len() == 0 {
        assert(u[0].0 == k);
    } else if K::precedes(s.last().0, k) {
        assert forall|i: int| 0 <= i < u.len() implies K::precedes(#[trigger] u[i].0, y) by {
            if i < s.len() {
                assert(u[i] == s[i]);
            }
        }
    } else if s.last().0 == k {
        assert forall|i: int| 0 <= i < u.len() implies K::precedes(#[trigger] u[i].0, y) by {
            if i < s.len() - 1 {
                assert(u[i] == s[i]);
            }
        }
    } else {
        let p = s.drop_last();
        lemma_upsert_below::<K>(p, k, h, y);
        let w = upsert::<K>(p, k, h);
        assert forall|i: int| 0 <= i < u.len() implies K::precedes(#[trigger] u[i].0, y) by {
            if i < w.len() {
                assert(u[i] == w[i]);
            } else {
                assert(u[i] == s[s.len() - 1]);
            }
        }
    }
}

pub proof fn lemma_upsert_map<K: SearchKey>(s: Seq<Entry<K::V>>, k: K::V, h: Seq<u8>)
    ensures
        map_of(upsert::<K>(s, k, h)) == map_of(s).insert(k, h),
    decreases s.len(),
{
    if s.len() == 0 {
        let u = seq![(k, h)];
        assert(u.drop_last() =~= Seq::<Entry<K::V>>::empty());
        assert(map_of(u) == map_of(u.drop_last()).insert(u.last().0, u.last().1));
        assert(map_of(s) == Map::<K::V, Seq<u8>>::empty());
    } else if K::precedes(s.last().0, k) {
        assert(s.push((k, h)).drop_last() =~= s);
    } else if s.last().0 == k {
        assert(s.drop_last().push((k, h)).drop_last() =~= s.drop_last());
        assert(map_of(s).insert(k, h) =~= map_of(s.drop_last()).insert(k, h));
    } else {
        let u = upsert::<K>(s.drop_last(), k, h);
        lemma_upsert_map::<K>(s.drop_last(), k, h);
        assert(u.push(s.last()).drop_last() =~= u);
        assert(map_of(s.drop_last()).insert(k, h).insert(s.last().0, s.last().1) =~= map_of(
            s.drop_last(),
        ).insert(s.last().0, s.last().1).insert(k, h));
    }
}

} // verus!
