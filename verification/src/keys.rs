//! Lexicographic byte-string order: its spec, its laws, a verified
//! three-way comparison and binary search over sorted key lists.

use vstd::prelude::*;

verus! {

/// Strict lexicographic order on byte strings: `a` sorts before `b`.
pub open spec fn lex_lt(a: Seq<u8>, b: Seq<u8>) -> bool
    decreases a.len(),
{
    if b.len() == 0 {
        false
    } else if a.len() == 0 {
        true
    } else if a[0] < b[0] {
        true
    } else if a[0] > b[0] {
        false
    } else {
        lex_lt(a.drop_first(), b.drop_first())
    }
}

/// `a` sorts no later than `b`.
pub open spec fn lex_le(a: Seq<u8>, b: Seq<u8>) -> bool {
    lex_lt(a, b) || a == b
}

pub proof fn lemma_lex_irrefl(a: Seq<u8>)
    ensures
        !lex_lt(a, a),
    decreases a.len(),
{
    if a.len() > 0 {
        lemma_lex_irrefl(a.drop_first());
    }
}

/// Exactly one of `a < b`, `a == b`, `b < a` holds.
pub proof fn lemma_lex_trichotomy(a: Seq<u8>, b: Seq<u8>)
    ensures
        lex_lt(a, b) || lex_lt(b, a) || a == b,
        !(lex_lt(a, b) && lex_lt(b, a)),
        lex_lt(a, b) ==> a != b,
        lex_lt(b, a) ==> a != b,
    decreases a.len(),
{
    lemma_lex_irrefl(a);
    lemma_lex_irrefl(b);
    if a.len() == 0 && b.len() == 0 {
        assert(a =~= b);
    } else if a.len() > 0 && b.len() > 0 && a[0] == b[0] {
        lemma_lex_trichotomy(a.drop_first(), b.drop_first());
        if a.drop_first() == b.drop_first() {
            assert(a.len() == b.len());
            assert forall|k: int| 0 <= k < a.len() implies a[k] == b[k] by {
                if k > 0 {
                    assert(a[k] == a.drop_first()[k - 1]);
                    assert(b[k] == b.drop_first()[k - 1]);
                }
            }
            assert(a =~= b);
        }
        if a == b {
            assert(a.drop_first() =~= b.drop_first());
        }
    }
}

pub proof fn lemma_lex_trans(a: Seq<u8>, b: Seq<u8>, c: Seq<u8>)
    requires
        lex_lt(a, b),
        lex_lt(b, c),
    ensures
        lex_lt(a, c),
    decreases a.len(),
{
    if a.len() > 0 && b.len() > 0 && c.len() > 0 && a[0] == b[0] && b[0] == c[0] {
        lemma_lex_trans(a.drop_first(), b.drop_first(), c.drop_first());
    }
}

/// Dropping an equal prefix does not change the order of two byte strings.
pub proof fn lemma_lex_skip(a: Seq<u8>, b: Seq<u8>, i: int)
    requires
        0 <= i <= a.len(),
        i <= b.len(),
        forall|k: int| 0 <= k < i ==> a[k] == b[k],
    ensures
        lex_lt(a, b) <==> lex_lt(a.skip(i), b.skip(i)),
    decreases i,
{
    if i > 0 {
        assert(a[0] == b[0]);
        assert(a.len() > 0 && b.len() > 0);
        assert(forall|k: int| 0 <= k < i - 1 ==> a.drop_first()[k] == b.drop_first()[k]);
        lemma_lex_skip(a.drop_first(), b.drop_first(), i - 1);
        assert(a.drop_first().skip(i - 1) =~= a.skip(i));
        assert(b.drop_first().skip(i - 1) =~= b.skip(i));
    } else {
        assert(a.skip(0) =~= a);
        assert(b.skip(0) =~= b);
    }
}

/// Three-way comparison result for byte-string keys.
pub enum KeyOrder {
    Less,
    Equal,
    Greater,
}

/// Lexicographic three-way comparison of two byte strings.
pub fn key_compare(a: &Vec<u8>, b: &Vec<u8>) -> (r: KeyOrder)
    ensures
        match r {
            KeyOrder::Less => lex_lt(a@, b@),
            KeyOrder::Equal => a@ == b@,
            KeyOrder::Greater => lex_lt(b@, a@),
        },
{
    let n = if a.len() < b.len() {
        a.len()
    } else {
        b.len()
    };
    let mut i: usize = 0;
    while i < n
        invariant
            0 <= i <= n,
            n <= a.len(),
            n <= b.len(),
            n == a.len() || n == b.len(),
            forall|k: int| 0 <= k < i ==> a@[k] == b@[k],
        decreases n - i,
    {
        let x = a[i];
        let y = b[i];
        if x < y {
            proof {
                lemma_lex_skip(a@, b@, i as int);
                assert(lex_lt(a@.skip(i as int), b@.skip(i as int)));
            }
            return KeyOrder::Less;
        }
        if x > y {
            proof {
                lemma_lex_skip(b@, a@, i as int);
                assert(lex_lt(b@.skip(i as int), a@.skip(i as int)));
            }
            return KeyOrder::Greater;
        }
        i = i + 1;
    }
    if a.len() == b.len() {
        proof {
            assert(a@ =~= b@);
        }
        KeyOrder::Equal
    } else if a.len() < b.len() {
        proof {
            lemma_lex_skip(a@, b@, i as int);
            assert(lex_lt(a@.skip(i as int), b@.skip(i as int)));
        }
        KeyOrder::Less
    } else {
        proof {
            lemma_lex_skip(b@, a@, i as int);
            assert(lex_lt(b@.skip(i as int), a@.skip(i as int)));
        }
        KeyOrder::Greater
    }
}

/// Keys strictly ascending in lexicographic order.
pub open spec fn sorted_keys(ks: Seq<Seq<u8>>) -> bool {
    forall|i: int, j: int| 0 <= i < j < ks.len() ==> lex_lt(ks[i], ks[j])
}

/// The byte strings held by a list of byte vectors.
pub open spec fn views_of(ks: Seq<Vec<u8>>) -> Seq<Seq<u8>> {
    Seq::new(ks.len(), |i: int| ks[i]@)
}

/// Binary search over a strictly sorted key list.  `Ok(i)` means the key sits
/// at position `i`; `Err(i)` means the key is absent and `i` is its insertion
/// position.
pub fn find_key(keys: &Vec<Vec<u8>>, key: &Vec<u8>) -> (r: Result<usize, usize>)
    requires
        sorted_keys(views_of(keys@)),
    ensures
        match r {
            Ok(i) => i < keys.len() && views_of(keys@)[i as int] == key@,
            Err(i) => {
                &&& i <= keys.len()
                &&& forall|j: int| 0 <= j < i ==> lex_lt(views_of(keys@)[j], key@)
                &&& forall|j: int|
                    i <= j < keys@.len() ==> lex_lt(key@, views_of(keys@)[j])
            },
        },
{
    let ghost ks = views_of(keys@);
    let mut lo: usize = 0;
    let mut hi: usize = keys.len();
    while lo < hi
        invariant
            lo <= hi <= keys.len(),
            ks == views_of(keys@),
            sorted_keys(ks),
            forall|j: int| 0 <= j < lo ==> lex_lt(ks[j], key@),
            forall|j: int| hi <= j < ks.len() ==> lex_lt(key@, ks[j]),
        decreases hi - lo,
    {
        let mid = lo + (hi - lo) / 2;
        match key_compare(&keys[mid], key) {
            KeyOrder::Less => {
                assert forall|j: int| 0 <= j < mid + 1 implies lex_lt(ks[j], key@) by {
                    if j < mid {
                        lemma_lex_trans(ks[j], ks[mid as int], key@);
                    }
                }
                lo = mid + 1;
            },
            KeyOrder::Equal => {
                return Ok(mid);
            },
            KeyOrder::Greater => {
                assert forall|j: int| mid <= j < ks.len() implies lex_lt(key@, ks[j]) by {
                    if j > mid {
                        lemma_lex_trans(key@, ks[mid as int], ks[j]);
                    }
                }
                hi = mid;
            },
        }
    }
    Err(lo)
}

} // verus!
