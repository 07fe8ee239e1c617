//! The natural order of texts, in which a number within a text counts by its
//! value: `a2` comes before `a10`.

use vstd::prelude::*;

verus! {

/// What `natord::compare` finds of two texts: -1 where the left one comes
/// first, 1 where the right one does, 0 where neither does.
pub uninterp spec fn natural_order(left: Seq<char>, right: Seq<char>) -> int;

/// `natord::compare` on two texts. The contract names its result and
/// claims nothing more of it.
#[verifier::external_body]
fn natural(left: &str, right: &str) -> (r: i8)
    ensures
        r == natural_order(left@, right@),
{
    match natord::compare(left, right) {
        std::cmp::Ordering::Less => -1,
        std::cmp::Ordering::Equal => 0,
        std::cmp::Ordering::Greater => 1,
    }
}

/// The texts of a list of strings.
pub open spec fn texts(names: Seq<String>) -> Seq<Seq<char>> {
    Seq::new(names.len(), |i: int| names[i]@)
}

/// The ranks with `k` put behind the last index whose text does not come
/// after the text of `k`.
pub open spec fn insert_rank(names: Seq<Seq<char>>, ranks: Seq<usize>, k: usize) -> Seq<usize>
    decreases ranks.len(),
{
    if ranks.len() == 0 {
        seq![k]
    } else if natural_order(names[ranks.last() as int], names[k as int]) <= 0 {
        ranks.push(k)
    } else {
        insert_rank(names, ranks.drop_last(), k).push(ranks.last())
    }
}

/// The indices of the first `n` texts in their natural order; texts of
/// which neither comes first keep their order.
pub open spec fn natural_ranks(names: Seq<Seq<char>>, n: nat) -> Seq<usize>
    decreases n,
{
    if n == 0 {
        Seq::empty()
    } else {
        insert_rank(names, natural_ranks(names, (n - 1) as nat), (n - 1) as usize)
    }
}

/// Every index below `n` occurs once.
pub open spec fn is_permutation(ranks: Seq<usize>, n: nat) -> bool {
    &&& ranks.len() == n
    &&& forall|i: int| 0 <= i < ranks.len() ==> (#[trigger] ranks[i]) < n
    &&& forall|i: int, j: int| 0 <= i < j < ranks.len() ==> ranks[i] != ranks[j]
}

/// [`insert_rank`] puts the index at the place `p` that separates the
/// indices whose text does not come after its text from the others.
pub proof fn lemma_insert_rank_at(names: Seq<Seq<char>>, ranks: Seq<usize>, k: usize, p: int)
    requires
        0 <= p <= ranks.len(),
        p > 0 ==> natural_order(names[ranks[p - 1] as int], names[k as int]) <= 0,
        forall|j: int|
            p <= j < ranks.len() ==> natural_order(
                names[(#[trigger] ranks[j]) as int],
                names[k as int],
            ) > 0,
    ensures
        insert_rank(names, ranks, k) == ranks.insert(p, k),
    decreases ranks.len(),
{
    if ranks.len() == 0 {
        assert(seq![k] =~= ranks.insert(p, k));
    } else if natural_order(names[ranks.last() as int], names[k as int]) <= 0 {
        if p < ranks.len() {
            assert(natural_order(names[ranks[ranks.len() - 1] as int], names[k as int]) > 0);
        }
        assert(ranks.push(k) =~= ranks.insert(p, k));
    } else {
        assert(p < ranks.len());
        let t = ranks.drop_last();
        assert forall|j: int| p <= j < t.len() implies natural_order(
            names[(#[trigger] t[j]) as int],
            names[k as int],
        ) > 0 by {
            assert(t[j] == ranks[j]);
        }
        lemma_insert_rank_at(names, t, k, p);
        assert(t.insert(p, k).push(ranks.last()) =~= ranks.insert(p, k));
    }
}

/// The ranks with one more index are the ranks with that index put in
/// somewhere.
pub proof fn lemma_insert_rank_somewhere(names: Seq<Seq<char>>, ranks: Seq<usize>, k: usize)
    ensures
        exists|p: int| 0 <= p <= ranks.len() && insert_rank(names, ranks, k) == ranks.insert(p, k),
    decreases ranks.len(),
{
    if ranks.len() == 0 {
        assert(seq![k] =~= ranks.insert(0, k));
    } else if natural_order(names[ranks.last() as int], names[k as int]) <= 0 {
        assert(ranks.push(k) =~= ranks.insert(ranks.len() as int, k));
    } else {
        let t = ranks.drop_last();
        lemma_insert_rank_somewhere(names, t, k);
        let p = choose|p: int| 0 <= p <= t.len() && insert_rank(names, t, k) == t.insert(p, k);
        assert(t.insert(p, k).push(ranks.last()) =~= ranks.insert(p, k));
    }
}

/// The natural order of `n` texts names each of them once.
pub proof fn lemma_natural_ranks(names: Seq<Seq<char>>, n: nat)
    requires
        n <= usize::MAX,
    ensures
        is_permutation(natural_ranks(names, n), n),
    decreases n,
{
    if n > 0 {
        let before = natural_ranks(names, (n - 1) as nat);
        let k = (n - 1) as usize;
        lemma_natural_ranks(names, (n - 1) as nat);
        lemma_insert_rank_somewhere(names, before, k);
        let p = choose|p: int|
            0 <= p <= before.len() && insert_rank(names, before, k) == before.insert(p, k);
        let after = before.insert(p, k);
        assert forall|i: int| 0 <= i < after.len() implies (#[trigger] after[i]) < n by {
            if i < p {
                assert(after[i] == before[i]);
            } else if i > p {
                assert(after[i] == before[i - 1]);
            }
        }
        assert forall|i: int, j: int| 0 <= i < j < after.len() implies after[i] != after[j] by {
            let bi = if i < p {
                i
            } else {
                i - 1
            };
            let bj = if j < p {
                j
            } else {
                j - 1
            };
            if i != p {
                assert(after[i] == before[bi]);
            }
            if j != p {
                assert(after[j] == before[bj]);
            }
        }
    }
}

/// The indices of the names in their natural order; names of which neither
/// comes first keep their order.
pub fn natural_order_of(names: &Vec<String>) -> (ranks: Vec<usize>)
    ensures
        ranks@ == natural_ranks(texts(names@), names@.len()),
        is_permutation(ranks@, names@.len()),
{
    let ghost t = texts(names@);
    let mut ranks: Vec<usize> = Vec::new();
    let mut k: usize = 0;
    while k < names.len()
        invariant
            k <= names@.len(),
            t == texts(names@),
            ranks@ == natural_ranks(t, k as nat),
            is_permutation(ranks@, k as nat),
        decreases names.len() - k,
    {
        let mut p: usize = ranks.len();
        while p > 0 && natural(names[ranks[p - 1]].as_str(), names[k].as_str()) > 0
            invariant
                p <= ranks@.len(),
                k < names@.len(),
                t == texts(names@),
                is_permutation(ranks@, k as nat),
                forall|j: int|
                    p <= j < ranks@.len() ==> natural_order(
                        t[(#[trigger] ranks@[j]) as int],
                        t[k as int],
                    ) > 0,
            decreases p,
        {
            p -= 1;
        }
        proof {
            lemma_insert_rank_at(t, ranks@, k, p as int);
            lemma_natural_ranks(t, (k + 1) as nat);
        }
        ranks.insert(p, k);
        k += 1;
    }
    ranks
}

} // verus!
