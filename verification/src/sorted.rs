//! Lists of pairs that ascend by their first part, read as finite maps.

use vstd::prelude::*;

verus! {

/// A place moved by an insertion at `k`.
pub open spec fn moved(p: Option<int>, k: int) -> Option<int> {
    match p {
        Some(j) => if j < k {
            Some(j)
        } else {
            Some(j + 1)
        },
        None => None,
    }
}

/// A key with a place among the whole numbers, by which keys are ordered.
pub trait Ranked {
    /// The place of the key.
    spec fn rank(&self) -> int;
}

impl Ranked for u8 {
    open spec fn rank(&self) -> int {
        *self as int
    }
}

impl Ranked for u64 {
    open spec fn rank(&self) -> int {
        *self as int
    }
}

/// The keys strictly ascend.
pub open spec fn ascending<K: Ranked, V>(s: Seq<(K, V)>) -> bool {
    forall|i: int, j: int| 0 <= i < j < s.len() ==> s[i].0.rank() < s[j].0.rank()
}

/// Place of a key in the list.
pub open spec fn position<K: Ranked, V>(s: Seq<(K, V)>, key: K) -> Option<int> {
    if exists|i: int| 0 <= i < s.len() && (#[trigger] s[i]).0 == key {
        Some(choose|i: int| 0 <= i < s.len() && (#[trigger] s[i]).0 == key)
    } else {
        None
    }
}

/// In an ascending list a key stands at one place at most.
pub proof fn lemma_position<K: Ranked, V>(s: Seq<(K, V)>, i: int)
    requires
        ascending(s),
        0 <= i < s.len(),
    ensures
        position(s, s[i].0) == Some(i),
{
    let j = choose|j: int| 0 <= j < s.len() && (#[trigger] s[j]).0 == s[i].0;
    if j < i {
        assert(s[j].0.rank() < s[i].0.rank());
    }
    if i < j {
        assert(s[i].0.rank() < s[j].0.rank());
    }
}

/// A list whose keys are those of an ascending list ascends, and has every
/// key at the same place.
pub proof fn lemma_same_keys<K: Ranked, V>(a: Seq<(K, V)>, b: Seq<(K, V)>)
    requires
        ascending(a),
        b.len() == a.len(),
        forall|j: int| 0 <= j < a.len() ==> (#[trigger] b[j]).0 == a[j].0,
    ensures
        ascending(b),
        forall|key: K| position(b, key) == position(a, key),
{
    assert forall|i: int, j: int| 0 <= i < j < b.len() implies b[i].0.rank() < b[j].0.rank() by {
        assert(a[i].0.rank() < a[j].0.rank());
    }
    assert forall|key: K| position(b, key) == position(a, key) by {
        if exists|i: int| 0 <= i < a.len() && (#[trigger] a[i]).0 == key {
            let i = choose|i: int| 0 <= i < a.len() && (#[trigger] a[i]).0 == key;
            lemma_position(a, i);
            assert(b[i].0 == key);
            lemma_position(b, i);
        } else {
            if exists|j: int| 0 <= j < b.len() && (#[trigger] b[j]).0 == key {
                let j = choose|j: int| 0 <= j < b.len() && (#[trigger] b[j]).0 == key;
                assert(a[j].0 == key);
            }
        }
    }
}

/// A list with a new key put in at the place `k` where it belongs ascends;
/// the new key stands at `k`, and every other key where it stood, moved by
/// one behind `k`.
pub proof fn lemma_inserted<K: Ranked, V>(a: Seq<(K, V)>, b: Seq<(K, V)>, k: int)
    requires
        ascending(a),
        0 <= k <= a.len(),
        b.len() == a.len() + 1,
        b == a.insert(k, b[k]),
        forall|j: int| 0 <= j < k ==> (#[trigger] a[j]).0.rank() < b[k].0.rank(),
        forall|j: int| k <= j < a.len() ==> (#[trigger] a[j]).0.rank() > b[k].0.rank(),
    ensures
        ascending(b),
        position(a, b[k].0).is_none(),
        position(b, b[k].0) == Some(k),
        forall|key: K| key != b[k].0 ==> #[trigger] position(b, key) == moved(position(a, key), k),
{
    assert forall|i: int, j: int| 0 <= i < j < b.len() implies b[i].0.rank() < b[j].0.rank() by {
        let ai = if i < k {
            i
        } else {
            i - 1
        };
        let aj = if j < k {
            j
        } else {
            j - 1
        };
        if i != k && j != k {
            assert(a[ai].0.rank() < a[aj].0.rank());
        }
    }
    lemma_position(b, k);
    assert forall|key: K| key != b[k].0 implies #[trigger] position(b, key) == moved(
        position(a, key),
        k,
    ) by {
        if exists|j: int| 0 <= j < a.len() && (#[trigger] a[j]).0 == key {
            let j = choose|j: int| 0 <= j < a.len() && (#[trigger] a[j]).0 == key;
            lemma_position(a, j);
            let bj = if j < k {
                j
            } else {
                j + 1
            };
            assert(b[bj] == a[j]);
            lemma_position(b, bj);
        } else {
            if exists|j: int| 0 <= j < b.len() && (#[trigger] b[j]).0 == key {
                let j = choose|j: int| 0 <= j < b.len() && (#[trigger] b[j]).0 == key;
                let aj = if j < k {
                    j
                } else {
                    j - 1
                };
                assert(a[aj].0 == key);
            }
        }
    }
    if exists|j: int| 0 <= j < a.len() && (#[trigger] a[j]).0 == b[k].0 {
        let j = choose|j: int| 0 <= j < a.len() && (#[trigger] a[j]).0 == b[k].0;
        assert(false);
    }
}

/// Number of pairs whose key is below `key`.
pub open spec fn lower<K: Ranked, V>(s: Seq<(K, V)>, key: K) -> int
    decreases s.len(),
{
    if s.len() == 0 {
        0
    } else if s.last().0.rank() < key.rank() {
        lower(s.drop_last(), key) + 1
    } else {
        lower(s.drop_last(), key)
    }
}

/// What stands under a key, if anything.
pub open spec fn get<K: Ranked, V>(s: Seq<(K, V)>, key: K) -> Option<V> {
    match position(s, key) {
        Some(i) => Some(s[i].1),
        None => None,
    }
}

/// The ascending list with `value` under `key`: in place of what stood
/// there, or put in where the key belongs.
pub open spec fn put<K: Ranked, V>(s: Seq<(K, V)>, key: K, value: V) -> Seq<(K, V)> {
    let k = lower(s, key);
    if 0 <= k < s.len() && s[k].0 == key {
        s.update(k, (key, value))
    } else {
        s.insert(k, (key, value))
    }
}

/// The place that separates the keys below `key` from the others is the
/// number of keys below `key`.
pub proof fn lemma_lower<K: Ranked, V>(s: Seq<(K, V)>, key: K, k: int)
    requires
        0 <= k <= s.len(),
        forall|i: int| 0 <= i < k ==> (#[trigger] s[i]).0.rank() < key.rank(),
        forall|i: int| k <= i < s.len() ==> (#[trigger] s[i]).0.rank() >= key.rank(),
    ensures
        lower(s, key) == k,
    decreases s.len(),
{
    if s.len() > 0 {
        let t = s.drop_last();
        if k == s.len() {
            assert(s[s.len() - 1].0.rank() < key.rank());
            lemma_lower(t, key, k - 1);
        } else {
            assert(s[s.len() - 1].0.rank() >= key.rank());
            lemma_lower(t, key, k);
        }
    }
}


} // verus!
