//! Sequences of byte-string keys kept in strictly increasing order: the shape
//! in which the replicated state holds its sets and maps.

use vstd::prelude::*;
use crate::types::{bytes_lt, lemma_bytes_lt_asymmetric, lemma_bytes_lt_transitive, lemma_bytes_lt_total};

verus! {

/// Every key is strictly below every later key.
pub open spec fn strictly_sorted(keys: Seq<Seq<u8>>) -> bool {
    forall|i: int, j: int| 0 <= i < j < keys.len() ==> bytes_lt(#[trigger] keys[i], #[trigger] keys[j])
}

/// Number of keys strictly below `key`: where `key` stands, or would be
/// inserted, in a strictly sorted sequence.
pub open spec fn count_below(keys: Seq<Seq<u8>>, key: Seq<u8>) -> nat
    decreases keys.len(),
{
    if keys.len() == 0 {
        0
    } else {
        count_below(keys.drop_last(), key) + if bytes_lt(keys.last(), key) {
            1nat
        } else {
            0nat
        }
    }
}

/// The keys before `i` are below `key` and the others are not.
pub open spec fn splits_at(keys: Seq<Seq<u8>>, key: Seq<u8>, i: int) -> bool {
    &&& 0 <= i <= keys.len()
    &&& forall|j: int| 0 <= j < i ==> bytes_lt(#[trigger] keys[j], key)
    &&& forall|j: int| i <= j < keys.len() ==> !bytes_lt(#[trigger] keys[j], key)
}

/// Where the keys split around `key`, `count_below` is the split point.
pub proof fn lemma_count_below_at_split(keys: Seq<Seq<u8>>, key: Seq<u8>, i: int)
    requires
        splits_at(keys, key, i),
    ensures
        count_below(keys, key) == i,
    decreases keys.len(),
{
    if keys.len() > 0 {
        let k = keys.drop_last();
        if i == keys.len() {
            assert(splits_at(k, key, i - 1));
            lemma_count_below_at_split(k, key, i - 1);
            assert(bytes_lt(keys[keys.len() - 1], key));
        } else {
            assert(splits_at(k, key, i));
            lemma_count_below_at_split(k, key, i);
            assert(!bytes_lt(keys[keys.len() - 1], key));
        }
    }
}

/// In a strictly sorted sequence, the first key that is not below `key`
/// splits the sequence; `key` occurs in it exactly when that key is `key`.
pub proof fn lemma_sorted_split(keys: Seq<Seq<u8>>, key: Seq<u8>, i: int)
    requires
        strictly_sorted(keys),
        0 <= i <= keys.len(),
        forall|j: int| 0 <= j < i ==> bytes_lt(#[trigger] keys[j], key),
        i < keys.len() ==> !bytes_lt(keys[i], key),
        forall|j: int| 0 <= j < keys.len() ==> (#[trigger] keys[j]).len() == key.len(),
    ensures
        splits_at(keys, key, i),
        count_below(keys, key) == i,
        keys.contains(key) <==> (i < keys.len() && keys[i] == key),
        i < keys.len() && keys[i] != key ==> bytes_lt(key, keys[i]),
{
    if i < keys.len() {
        lemma_bytes_lt_total(keys[i], key);
        assert forall|j: int| i <= j < keys.len() implies !bytes_lt(#[trigger] keys[j], key) by {
            if j > i {
                assert(bytes_lt(keys[i], keys[j]));
                if bytes_lt(keys[j], key) {
                    lemma_bytes_lt_transitive(keys[i], keys[j], key);
                }
            }
        }
        if keys.contains(key) {
            let j = choose|j: int| 0 <= j < keys.len() && keys[j] == key;
            lemma_bytes_lt_asymmetric(key, key);
            if j > i && keys[i] != key {
                assert(bytes_lt(keys[i], keys[j]));
                lemma_bytes_lt_asymmetric(keys[i], key);
            }
        }
    } else {
        if keys.contains(key) {
            let j = choose|j: int| 0 <= j < keys.len() && keys[j] == key;
            lemma_bytes_lt_asymmetric(key, key);
        }
    }
    lemma_count_below_at_split(keys, key, i);
}

/// Inserting `key` where the sequence splits around it keeps it strictly sorted.
pub proof fn lemma_insert_sorted(keys: Seq<Seq<u8>>, key: Seq<u8>, i: int)
    requires
        strictly_sorted(keys),
        splits_at(keys, key, i),
        !keys.contains(key),
        forall|j: int| 0 <= j < keys.len() ==> (#[trigger] keys[j]).len() == key.len(),
    ensures
        strictly_sorted(keys.insert(i, key)),
{
    let n = keys.insert(i, key);
    assert forall|a: int, b: int| 0 <= a < b < n.len() implies bytes_lt(#[trigger] n[a], #[trigger] n[b]) by {
        if b < i {
            assert(n[a] == keys[a] && n[b] == keys[b]);
        } else if b == i {
            assert(n[a] == keys[a]);
        } else if a > i {
            assert(n[a] == keys[a - 1] && n[b] == keys[b - 1]);
        } else {
            // a <= i < b: n[b] == keys[b - 1], which is not below key and differs from it
            assert(n[b] == keys[b - 1]);
            lemma_bytes_lt_total(keys[b - 1], key);
            assert(keys[b - 1] != key);
            if a < i {
                assert(n[a] == keys[a]);
                lemma_bytes_lt_transitive(keys[a], key, keys[b - 1]);
            }
        }
    }
}

/// In a strictly sorted sequence of keys of one length, the keys split at
/// `count_below`.
pub proof fn lemma_sorted_splits_at_count(keys: Seq<Seq<u8>>, key: Seq<u8>)
    requires
        strictly_sorted(keys),
        forall|j: int| 0 <= j < keys.len() ==> (#[trigger] keys[j]).len() == key.len(),
    ensures
        splits_at(keys, key, count_below(keys, key) as int),
    decreases keys.len(),
{
    if keys.len() > 0 {
        let k = keys.drop_last();
        let last = keys.last();
        assert forall|a: int, b: int| 0 <= a < b < k.len() implies bytes_lt(#[trigger] k[a], #[trigger] k[b]) by {
            assert(k[a] == keys[a] && k[b] == keys[b]);
        }
        lemma_sorted_splits_at_count(k, key);
        let c = count_below(k, key) as int;
        if bytes_lt(last, key) {
            assert forall|j: int| 0 <= j < keys.len() implies bytes_lt(#[trigger] keys[j], key) by {
                if j < keys.len() - 1 {
                    assert(bytes_lt(keys[j], keys[keys.len() - 1]));
                    lemma_bytes_lt_transitive(keys[j], last, key);
                }
            }
        } else {
            assert forall|j: int| 0 <= j < c implies bytes_lt(#[trigger] keys[j], key) by {
                assert(keys[j] == k[j]);
            }
            assert forall|j: int| c <= j < keys.len() implies !bytes_lt(#[trigger] keys[j], key) by {
                if j < keys.len() - 1 {
                    assert(keys[j] == k[j]);
                }
            }
        }
    }
}

/// Dropping the last key keeps a sequence strictly sorted.
pub proof fn lemma_sorted_drop_last(keys: Seq<Seq<u8>>)
    requires
        strictly_sorted(keys),
        keys.len() > 0,
    ensures
        strictly_sorted(keys.drop_last()),
{
    let k = keys.drop_last();
    assert forall|a: int, b: int| 0 <= a < b < k.len() implies bytes_lt(#[trigger] k[a], #[trigger] k[b]) by {
        assert(k[a] == keys[a] && k[b] == keys[b]);
    }
}

/// Two strictly sorted sequences of keys of one length that hold the same
/// keys are the same sequence.
pub proof fn lemma_sorted_unique(k1: Seq<Seq<u8>>, k2: Seq<Seq<u8>>, len: nat)
    requires
        strictly_sorted(k1),
        strictly_sorted(k2),
        forall|j: int| 0 <= j < k1.len() ==> (#[trigger] k1[j]).len() == len,
        forall|j: int| 0 <= j < k2.len() ==> (#[trigger] k2[j]).len() == len,
        forall|x: Seq<u8>| k1.contains(x) <==> k2.contains(x),
    ensures
        k1 == k2,
    decreases k1.len() + k2.len(),
{
    if k1.len() == 0 {
        if k2.len() > 0 {
            assert(k2.contains(k2[0]));
        }
        assert(k1 =~= k2);
    } else if k2.len() == 0 {
        assert(k1.contains(k1[0]));
    } else {
        let a = k1.last();
        let b = k2.last();
        let n1 = k1.len() - 1;
        let n2 = k2.len() - 1;
        assert(k1.contains(a));
        assert(k2.contains(b));
        if a != b {
            let j = choose|j: int| 0 <= j < k2.len() && k2[j] == a;
            let i = choose|i: int| 0 <= i < k1.len() && k1[i] == b;
            assert(j != n2);
            assert(i != n1);
            assert(bytes_lt(k2[j], k2[n2]));
            assert(bytes_lt(k1[i], k1[n1]));
            lemma_bytes_lt_asymmetric(a, b);
        }
        let d1 = k1.drop_last();
        let d2 = k2.drop_last();
        lemma_sorted_drop_last(k1);
        lemma_sorted_drop_last(k2);
        assert forall|x: Seq<u8>| d1.contains(x) <==> d2.contains(x) by {
            if d1.contains(x) {
                let i = choose|i: int| 0 <= i < d1.len() && d1[i] == x;
                assert(k1[i] == x);
                assert(bytes_lt(k1[i], k1[n1]));
                lemma_bytes_lt_asymmetric(x, x);
                assert(k2.contains(x));
                let j = choose|j: int| 0 <= j < k2.len() && k2[j] == x;
                assert(j != n2);
                assert(d2[j] == x);
            }
            if d2.contains(x) {
                let j = choose|j: int| 0 <= j < d2.len() && d2[j] == x;
                assert(k2[j] == x);
                assert(bytes_lt(k2[j], k2[n2]));
                lemma_bytes_lt_asymmetric(x, x);
                assert(k1.contains(x));
                let i = choose|i: int| 0 <= i < k1.len() && k1[i] == x;
                assert(i != n1);
                assert(d1[i] == x);
            }
        }
        lemma_sorted_unique(d1, d2, len);
        assert(k1 =~= d1.push(a));
        assert(k2 =~= d2.push(b));
    }
}

} // verus!
