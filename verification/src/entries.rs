//! The mathematical model of the store's contents: sorted sequences of
//! key/value pairs with lookup, upsert and removal, and the laws relating
//! them that the tree contracts are stated and proved against.

use vstd::prelude::*;

use crate::keys::{lemma_lex_irrefl, lemma_lex_trans, lemma_lex_trichotomy, lex_lt};

verus! {

/// An ordered sequence of key/value pairs: the in-order contents of a
/// subtree.
pub type KvSeq = Seq<(Seq<u8>, Seq<u8>)>;

/// Entry keys strictly ascending in lexicographic order.
pub open spec fn sorted_entries(es: KvSeq) -> bool {
    forall|i: int, j: int| 0 <= i < j < es.len() ==> lex_lt(es[i].0, es[j].0)
}

/// The leaf entries formed by pairing keys with values.
pub open spec fn zip_kv(ks: Seq<Seq<u8>>, vs: Seq<Seq<u8>>) -> KvSeq {
    Seq::new(ks.len(), |i: int| (ks[i], vs[i]))
}

/// The value at `k`, if any: the first entry whose key is `k`.
pub open spec fn kv_lookup(es: KvSeq, k: Seq<u8>) -> Option<Seq<u8>>
    decreases es.len(),
{
    if es.len() == 0 {
        None
    } else if es[0].0 == k {
        Some(es[0].1)
    } else {
        kv_lookup(es.drop_first(), k)
    }
}

/// Some entry holds key `k`.
pub open spec fn has_key(es: KvSeq, k: Seq<u8>) -> bool {
    kv_lookup(es, k) is Some
}

/// Upsert into a sorted sequence: replace the entry at `k` or place a new
/// one at its sorted position.
pub open spec fn kv_insert(es: KvSeq, k: Seq<u8>, v: Seq<u8>) -> KvSeq
    decreases es.len(),
{
    if es.len() == 0 {
        seq![(k, v)]
    } else if lex_lt(k, es[0].0) {
        seq![(k, v)] + es
    } else if k == es[0].0 {
        seq![(k, v)] + es.drop_first()
    } else {
        seq![es[0]] + kv_insert(es.drop_first(), k, v)
    }
}

/// Drop the first entry whose key is `k`, if any.
pub open spec fn kv_remove(es: KvSeq, k: Seq<u8>) -> KvSeq
    decreases es.len(),
{
    if es.len() == 0 {
        es
    } else if es[0].0 == k {
        es.drop_first()
    } else {
        seq![es[0]] + kv_remove(es.drop_first(), k)
    }
}

/// A key absent from every entry is not found.
pub proof fn lemma_kv_lookup_none(es: KvSeq, k: Seq<u8>)
    requires
        forall|j: int| 0 <= j < es.len() ==> es[j].0 != k,
    ensures
        kv_lookup(es, k) is None,
    decreases es.len(),
{
    if es.len() > 0 {
        lemma_kv_lookup_none(es.drop_first(), k);
    }
}

/// A key is found exactly when some entry holds it.
pub proof fn lemma_kv_lookup_exists(es: KvSeq, k: Seq<u8>)
    ensures
        has_key(es, k) <==> exists|j: int| 0 <= j < es.len() && es[j].0 == k,
    decreases es.len(),
{
    if es.len() > 0 {
        lemma_kv_lookup_exists(es.drop_first(), k);
        if es[0].0 == k {
            assert(es[0].0 == k && 0 < es.len());
        } else if has_key(es.drop_first(), k) {
            let j = choose|j: int| 0 <= j < es.drop_first().len() && es.drop_first()[j].0 == k;
            assert(es[j + 1].0 == k);
        } else if exists|j: int| 0 <= j < es.len() && es[j].0 == k {
            let j = choose|j: int| 0 <= j < es.len() && es[j].0 == k;
            assert(es.drop_first()[j - 1].0 == k);
        }
    }
}

/// A key found at position `pos`, with no earlier occurrence, looks up to
/// that entry's value.
pub proof fn lemma_kv_lookup_hit(es: KvSeq, k: Seq<u8>, pos: int)
    requires
        0 <= pos < es.len(),
        es[pos].0 == k,
        forall|j: int| 0 <= j < pos ==> es[j].0 != k,
    ensures
        kv_lookup(es, k) == Some(es[pos].1),
    decreases pos,
{
    if pos > 0 {
        assert(forall|j: int| 0 <= j < pos - 1 ==> es.drop_first()[j] == es[j + 1]);
        lemma_kv_lookup_hit(es.drop_first(), k, pos - 1);
    }
}

/// Upserting an existing key `k` at position `pos` replaces that entry.
pub proof fn lemma_kv_insert_hit(es: KvSeq, k: Seq<u8>, v: Seq<u8>, pos: int)
    requires
        0 <= pos < es.len(),
        es[pos].0 == k,
        forall|j: int| 0 <= j < pos ==> lex_lt(es[j].0, k),
    ensures
        kv_insert(es, k, v) == es.update(pos, (k, v)),
    decreases pos,
{
    if pos == 0 {
        lemma_lex_irrefl(k);
        assert(kv_insert(es, k, v) =~= es.update(0, (k, v)));
    } else {
        lemma_lex_trichotomy(k, es[0].0);
        assert(forall|j: int| 0 <= j < pos - 1 ==> es.drop_first()[j] == es[j + 1]);
        lemma_kv_insert_hit(es.drop_first(), k, v, pos - 1);
        assert(kv_insert(es, k, v) =~= es.update(pos, (k, v)));
    }
}

/// Upserting an absent key splices it in at its insertion position `pos`.
pub proof fn lemma_kv_insert_miss(es: KvSeq, k: Seq<u8>, v: Seq<u8>, pos: int)
    requires
        0 <= pos <= es.len(),
        forall|j: int| 0 <= j < pos ==> lex_lt(es[j].0, k),
        forall|j: int| pos <= j < es.len() ==> lex_lt(k, es[j].0),
    ensures
        kv_insert(es, k, v) == es.subrange(0, pos) + seq![(k, v)] + es.skip(pos),
    decreases pos,
{
    if es.len() == 0 {
        assert(kv_insert(es, k, v) =~= es.subrange(0, pos) + seq![(k, v)] + es.skip(pos));
    } else if pos == 0 {
        assert(lex_lt(k, es[0].0));
        assert(kv_insert(es, k, v) =~= es.subrange(0, 0) + seq![(k, v)] + es.skip(0));
    } else {
        lemma_lex_trichotomy(k, es[0].0);
        assert(forall|j: int| 0 <= j < es.len() - 1 ==> es.drop_first()[j] == es[j + 1]);
        lemma_kv_insert_miss(es.drop_first(), k, v, pos - 1);
        assert(kv_insert(es, k, v) =~= es.subrange(0, pos) + seq![(k, v)] + es.skip(pos));
    }
}

/// When every key of `a` sorts before `k`, upserting into `a + b` happens
/// inside `b`.
pub proof fn lemma_kv_insert_concat_right(a: KvSeq, b: KvSeq, k: Seq<u8>, v: Seq<u8>)
    requires
        forall|i: int| 0 <= i < a.len() ==> lex_lt(a[i].0, k),
    ensures
        kv_insert(a + b, k, v) == a + kv_insert(b, k, v),
    decreases a.len(),
{
    if a.len() == 0 {
        assert(a + b =~= b);
        assert(a + kv_insert(b, k, v) =~= kv_insert(b, k, v));
    } else {
        assert((a + b)[0] == a[0]);
        lemma_lex_trichotomy(k, a[0].0);
        assert((a + b).drop_first() =~= a.drop_first() + b);
        assert(forall|i: int| 0 <= i < a.len() - 1 ==> a.drop_first()[i] == a[i + 1]);
        lemma_kv_insert_concat_right(a.drop_first(), b, k, v);
        assert(kv_insert(a + b, k, v) =~= a + kv_insert(b, k, v));
    }
}

/// When `k` sorts before every key of `b`, upserting into `a + b` happens
/// inside `a`.
pub proof fn lemma_kv_insert_concat_left(a: KvSeq, b: KvSeq, k: Seq<u8>, v: Seq<u8>)
    requires
        forall|i: int| 0 <= i < b.len() ==> lex_lt(k, b[i].0),
    ensures
        kv_insert(a + b, k, v) == kv_insert(a, k, v) + b,
    decreases a.len(),
{
    if a.len() == 0 {
        assert(a + b =~= b);
        if b.len() == 0 {
            assert(kv_insert(a + b, k, v) =~= kv_insert(a, k, v) + b);
        } else {
            assert(lex_lt(k, b[0].0));
            assert(kv_insert(a + b, k, v) =~= kv_insert(a, k, v) + b);
        }
    } else {
        assert((a + b)[0] == a[0]);
        if lex_lt(k, a[0].0) {
            assert(kv_insert(a + b, k, v) =~= kv_insert(a, k, v) + b);
        } else if k == a[0].0 {
            assert((a + b).drop_first() =~= a.drop_first() + b);
            assert(kv_insert(a + b, k, v) =~= kv_insert(a, k, v) + b);
        } else {
            assert((a + b).drop_first() =~= a.drop_first() + b);
            lemma_kv_insert_concat_left(a.drop_first(), b, k, v);
            assert(kv_insert(a + b, k, v) =~= kv_insert(a, k, v) + b);
        }
    }
}

/// Looking up in a concatenation searches the left part first.
pub proof fn lemma_kv_lookup_concat(a: KvSeq, b: KvSeq, k: Seq<u8>)
    ensures
        kv_lookup(a + b, k) == (if has_key(a, k) {
            kv_lookup(a, k)
        } else {
            kv_lookup(b, k)
        }),
    decreases a.len(),
{
    if a.len() == 0 {
        assert(a + b =~= b);
    } else {
        assert((a + b)[0] == a[0]);
        assert((a + b).drop_first() =~= a.drop_first() + b);
        lemma_kv_lookup_concat(a.drop_first(), b, k);
    }
}

/// Removing the key found at position `pos` drops exactly that entry.
pub proof fn lemma_kv_remove_hit(es: KvSeq, k: Seq<u8>, pos: int)
    requires
        0 <= pos < es.len(),
        es[pos].0 == k,
        forall|j: int| 0 <= j < pos ==> lex_lt(es[j].0, k),
    ensures
        kv_remove(es, k) == es.subrange(0, pos) + es.skip(pos + 1),
    decreases pos,
{
    if pos == 0 {
        assert(kv_remove(es, k) =~= es.subrange(0, 0) + es.skip(1));
    } else {
        lemma_lex_trichotomy(es[0].0, k);
        assert(forall|j: int| 0 <= j < es.len() - 1 ==> es.drop_first()[j] == es[j + 1]);
        lemma_kv_remove_hit(es.drop_first(), k, pos - 1);
        assert(kv_remove(es, k) =~= es.subrange(0, pos) + es.skip(pos + 1));
    }
}

/// Removing an absent key changes nothing.
pub proof fn lemma_kv_remove_miss(es: KvSeq, k: Seq<u8>)
    requires
        forall|j: int| 0 <= j < es.len() ==> es[j].0 != k,
    ensures
        kv_remove(es, k) == es,
    decreases es.len(),
{
    if es.len() > 0 {
        assert(forall|j: int| 0 <= j < es.len() - 1 ==> es.drop_first()[j] == es[j + 1]);
        lemma_kv_remove_miss(es.drop_first(), k);
        assert(kv_remove(es, k) =~= es);
    }
}

/// When no key of `a` is `k`, removal from `a + b` happens inside `b`.
pub proof fn lemma_kv_remove_concat_right(a: KvSeq, b: KvSeq, k: Seq<u8>)
    requires
        forall|i: int| 0 <= i < a.len() ==> a[i].0 != k,
    ensures
        kv_remove(a + b, k) == a + kv_remove(b, k),
    decreases a.len(),
{
    if a.len() == 0 {
        assert(a + b =~= b);
        assert(a + kv_remove(b, k) =~= kv_remove(b, k));
    } else {
        assert((a + b)[0] == a[0]);
        assert((a + b).drop_first() =~= a.drop_first() + b);
        assert(forall|i: int| 0 <= i < a.len() - 1 ==> a.drop_first()[i] == a[i + 1]);
        lemma_kv_remove_concat_right(a.drop_first(), b, k);
        assert(kv_remove(a + b, k) =~= a + kv_remove(b, k));
    }
}

/// When no key of `b` is `k`, removal from `a + b` happens inside `a`.
pub proof fn lemma_kv_remove_concat_left(a: KvSeq, b: KvSeq, k: Seq<u8>)
    requires
        forall|i: int| 0 <= i < b.len() ==> b[i].0 != k,
    ensures
        kv_remove(a + b, k) == kv_remove(a, k) + b,
    decreases a.len(),
{
    if a.len() == 0 {
        assert(a + b =~= b);
        lemma_kv_remove_miss(b, k);
        assert(kv_remove(a, k) + b =~= b);
    } else {
        assert((a + b)[0] == a[0]);
        if a[0].0 == k {
            assert((a + b).drop_first() =~= a.drop_first() + b);
            assert(kv_remove(a + b, k) =~= kv_remove(a, k) + b);
        } else {
            assert((a + b).drop_first() =~= a.drop_first() + b);
            lemma_kv_remove_concat_left(a.drop_first(), b, k);
            assert(kv_remove(a + b, k) =~= kv_remove(a, k) + b);
        }
    }
}

/// After an upsert, `k` maps to `v` and every other key is untouched.
pub proof fn lemma_kv_lookup_insert(es: KvSeq, k: Seq<u8>, v: Seq<u8>, k2: Seq<u8>)
    ensures
        kv_lookup(kv_insert(es, k, v), k2) == (if k2 == k {
            Some(v)
        } else {
            kv_lookup(es, k2)
        }),
    decreases es.len(),
{
    if es.len() == 0 {
        if k2 != k {
            assert(kv_lookup(seq![(k, v)], k2) == kv_lookup(seq![(k, v)].drop_first(), k2));
            assert(seq![(k, v)].drop_first() =~= Seq::<(Seq<u8>, Seq<u8>)>::empty());
        }
    } else if lex_lt(k, es[0].0) {
        let r = seq![(k, v)] + es;
        assert(r[0] == (k, v));
        if k2 != k {
            assert(r.drop_first() =~= es);
        }
    } else if k == es[0].0 {
        let r = seq![(k, v)] + es.drop_first();
        assert(r[0] == (k, v));
        if k2 != k {
            assert(r.drop_first() =~= es.drop_first());
        }
    } else {
        lemma_lex_trichotomy(k, es[0].0);
        let r = seq![es[0]] + kv_insert(es.drop_first(), k, v);
        assert(r[0] == es[0]);
        lemma_kv_lookup_insert(es.drop_first(), k, v, k2);
        if es[0].0 == k2 {
            assert(k2 != k);
        } else {
            assert(r.drop_first() =~= kv_insert(es.drop_first(), k, v));
        }
    }
}

/// An upsert keeps a sorted sequence sorted; the result starts with the new
/// key or with the old first key.
pub proof fn lemma_kv_insert_sorted(es: KvSeq, k: Seq<u8>, v: Seq<u8>)
    requires
        sorted_entries(es),
    ensures
        sorted_entries(kv_insert(es, k, v)),
        kv_insert(es, k, v).len() > 0,
        kv_insert(es, k, v)[0].0 == k || (es.len() > 0 && kv_insert(es, k, v)[0].0 == es[0].0),
    decreases es.len(),
{
    let res = kv_insert(es, k, v);
    if es.len() == 0 {
    } else if lex_lt(k, es[0].0) {
        assert forall|i: int, j: int| 0 <= i < j < res.len() implies lex_lt(
            res[i].0,
            res[j].0,
        ) by {
            if i == 0 && j > 1 {
                lemma_lex_trans(k, es[0].0, es[j - 1].0);
            }
        }
    } else if k == es[0].0 {
        assert forall|i: int, j: int| 0 <= i < j < res.len() implies lex_lt(
            res[i].0,
            res[j].0,
        ) by {
            if i == 0 {
                assert(lex_lt(es[0].0, es[j].0));
            }
        }
    } else {
        lemma_lex_trichotomy(k, es[0].0);
        assert(forall|j: int| 0 <= j < es.len() - 1 ==> es.drop_first()[j] == es[j + 1]);
        assert(sorted_entries(es.drop_first()));
        lemma_kv_insert_sorted(es.drop_first(), k, v);
        let res2 = kv_insert(es.drop_first(), k, v);
        assert(lex_lt(es[0].0, res2[0].0));
        assert forall|i: int, j: int| 0 <= i < j < res.len() implies lex_lt(
            res[i].0,
            res[j].0,
        ) by {
            if i == 0 {
                if j > 1 {
                    lemma_lex_trans(es[0].0, res2[0].0, res2[j - 1].0);
                }
            }
        }
    }
}

/// Update in place: storing a second value under a key that was just stored
/// leaves that key bound to the second value, with the entry count — the
/// tree's content size — unchanged.
pub proof fn lemma_update_in_place(es: KvSeq, k: Seq<u8>, v1: Seq<u8>, v2: Seq<u8>)
    requires
        sorted_entries(es),
    ensures
        kv_lookup(kv_insert(kv_insert(es, k, v1), k, v2), k) == Some(v2),
        kv_insert(kv_insert(es, k, v1), k, v2).len() == kv_insert(es, k, v1).len(),
{
    lemma_kv_lookup_insert(es, k, v1, k);
    lemma_kv_insert_sorted(es, k, v1);
    lemma_kv_lookup_insert(kv_insert(es, k, v1), k, v2, k);
    lemma_kv_insert_len(kv_insert(es, k, v1), k, v2);
}

/// An upsert grows a sorted sequence by one entry exactly when the key was
/// absent.
pub proof fn lemma_kv_insert_len(es: KvSeq, k: Seq<u8>, v: Seq<u8>)
    requires
        sorted_entries(es),
    ensures
        kv_insert(es, k, v).len() == es.len() + (if has_key(es, k) {
            0int
        } else {
            1
        }),
    decreases es.len(),
{
    if es.len() == 0 {
    } else if lex_lt(k, es[0].0) {
        assert forall|j: int| 0 <= j < es.len() implies es[j].0 != k by {
            if j > 0 {
                lemma_lex_trans(k, es[0].0, es[j].0);
            }
            lemma_lex_trichotomy(k, es[j].0);
        }
        lemma_kv_lookup_none(es, k);
    } else if k == es[0].0 {
    } else {
        assert(forall|j: int| 0 <= j < es.len() - 1 ==> es.drop_first()[j] == es[j + 1]);
        assert(sorted_entries(es.drop_first()));
        lemma_kv_insert_len(es.drop_first(), k, v);
    }
}

} // verus!
