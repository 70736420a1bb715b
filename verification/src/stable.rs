//! Stable counting sort: the place that each item takes when a sequence is
//! sorted by key and items of one key keep their order, and the sort itself.

use vstd::prelude::*;
use vstd::set_lib::*;

verus! {

/// How many of the first `m` keys are below `k`.
pub open spec fn count_below(keys: Seq<int>, m: int, k: int) -> int
    decreases m,
{
    if m <= 0 {
        0
    } else {
        count_below(keys, m - 1, k) + if keys[m - 1] < k {
            1int
        } else {
            0int
        }
    }
}

/// How many of the first `m` keys equal `k`.
pub open spec fn count_same(keys: Seq<int>, m: int, k: int) -> int
    decreases m,
{
    if m <= 0 {
        0
    } else {
        count_same(keys, m - 1, k) + if keys[m - 1] == k {
            1int
        } else {
            0int
        }
    }
}

/// The place of item `i` once the items are sorted by key, items of one key
/// keeping their order: the number of smaller keys, plus the number of equal
/// keys before `i`.
pub open spec fn stable_slot(keys: Seq<int>, i: int) -> int {
    count_below(keys, keys.len() as int, keys[i]) + count_same(keys, i, keys[i])
}

/// The item that the stable sort by key puts at place `q`.
pub open spec fn stable_source(keys: Seq<int>, q: int) -> int {
    choose|i: int| 0 <= i < keys.len() && stable_slot(keys, i) == q
}

/// `f` maps its indices to distinct values in `[0, bound)`.
pub open spec fn injective_into(f: Seq<int>, bound: int) -> bool {
    &&& forall|i: int| 0 <= i < f.len() ==> 0 <= #[trigger] f[i] < bound
    &&& forall|i: int, j: int| 0 <= i < f.len() && 0 <= j < f.len() && i != j ==> f[i] != f[j]
}

/// The keys below `k + 1` are those below `k` and those equal to `k`.
pub proof fn lemma_count_split(keys: Seq<int>, m: int, k: int)
    requires
        0 <= m <= keys.len(),
    ensures
        0 <= count_below(keys, m, k),
        0 <= count_same(keys, m, k),
        count_below(keys, m, k) + count_same(keys, m, k) <= m,
        count_below(keys, m, k + 1) == count_below(keys, m, k) + count_same(keys, m, k),
    decreases m,
{
    if m > 0 {
        lemma_count_split(keys, m - 1, k);
    }
}

/// The count of a key grows with the prefix counted.
pub proof fn lemma_count_same_grows(keys: Seq<int>, m1: int, m2: int, k: int)
    requires
        0 <= m1 <= m2 <= keys.len(),
    ensures
        count_same(keys, m1, k) <= count_same(keys, m2, k),
    decreases m2 - m1,
{
    if m1 < m2 {
        lemma_count_same_grows(keys, m1, m2 - 1, k);
    }
}

/// The count of the keys below a bound grows with the bound.
pub proof fn lemma_count_below_grows(keys: Seq<int>, m: int, k1: int, k2: int)
    requires
        0 <= m <= keys.len(),
        k1 <= k2,
    ensures
        count_below(keys, m, k1) <= count_below(keys, m, k2),
    decreases m,
{
    if m > 0 {
        lemma_count_below_grows(keys, m - 1, k1, k2);
    }
}

/// Every place lies inside the sequence.
pub proof fn lemma_slot_range(keys: Seq<int>, i: int)
    requires
        0 <= i < keys.len(),
    ensures
        0 <= stable_slot(keys, i) < keys.len(),
{
    let n = keys.len() as int;
    let k = keys[i];
    lemma_count_split(keys, n, k);
    lemma_count_split(keys, i, k);
    lemma_count_same_grows(keys, i + 1, n, k);
}

/// A smaller key, or an equal key that stands earlier, takes an earlier place.
pub proof fn lemma_slot_order(keys: Seq<int>, i: int, j: int)
    requires
        0 <= i < keys.len(),
        0 <= j < keys.len(),
        keys[i] < keys[j] || (keys[i] == keys[j] && i < j),
    ensures
        stable_slot(keys, i) < stable_slot(keys, j),
{
    let n = keys.len() as int;
    if keys[i] < keys[j] {
        lemma_count_split(keys, n, keys[i]);
        lemma_count_same_grows(keys, i + 1, n, keys[i]);
        lemma_count_below_grows(keys, n, keys[i] + 1, keys[j]);
        lemma_count_split(keys, j, keys[j]);
    } else {
        lemma_count_same_grows(keys, i + 1, j, keys[i]);
    }
}

/// Distinct items take distinct places.
pub proof fn lemma_slot_injective(keys: Seq<int>, i: int, j: int)
    requires
        0 <= i < keys.len(),
        0 <= j < keys.len(),
        i != j,
    ensures
        stable_slot(keys, i) != stable_slot(keys, j),
{
    if keys[i] < keys[j] || (keys[i] == keys[j] && i < j) {
        lemma_slot_order(keys, i, j);
    } else {
        lemma_slot_order(keys, j, i);
    }
}

/// Distinct values of `[0, bound)` number at most `bound`.
pub proof fn lemma_pigeonhole(f: Seq<int>, bound: int)
    requires
        injective_into(f, bound),
        0 <= bound,
    ensures
        f.len() <= bound,
        f.to_set().subset_of(set_int_range(0, bound)),
        f.to_set().len() == f.len(),
{
    f.unique_seq_to_set();
    lemma_int_range(0, bound);
    assert(f.to_set().subset_of(set_int_range(0, bound))) by {
        assert forall|v: int| f.to_set().contains(v) implies set_int_range(0, bound).contains(
            v,
        ) by {
            let i = choose|i: int| 0 <= i < f.len() && f[i] == v;
            assert(0 <= f[i] < bound);
        }
    }
    lemma_len_subset(f.to_set(), set_int_range(0, bound));
}

/// Where `bound` distinct values of `[0, bound)` are listed, each value of the
/// range occurs.
pub proof fn lemma_pigeonhole_onto(f: Seq<int>, v: int)
    requires
        injective_into(f, f.len() as int),
        0 <= v < f.len(),
    ensures
        exists|i: int| 0 <= i < f.len() && f[i] == v,
{
    let bound = f.len() as int;
    lemma_pigeonhole(f, bound);
    lemma_int_range(0, bound);
    lemma_subset_equality(f.to_set(), set_int_range(0, bound));
    assert(set_int_range(0, bound).contains(v));
    assert(f.to_set().contains(v));
    assert(f.contains(v));
}

/// Every place is taken: the places of the items are a permutation.
pub proof fn lemma_slot_onto(keys: Seq<int>, q: int)
    requires
        0 <= q < keys.len(),
    ensures
        0 <= stable_source(keys, q) < keys.len(),
        stable_slot(keys, stable_source(keys, q)) == q,
{
    let n = keys.len() as int;
    let slots = Seq::new(keys.len(), |i: int| stable_slot(keys, i));
    assert(injective_into(slots, n)) by {
        assert forall|i: int| 0 <= i < slots.len() implies 0 <= #[trigger] slots[i] < n by {
            lemma_slot_range(keys, i);
        }
        assert forall|i: int, j: int|
            0 <= i < slots.len() && 0 <= j < slots.len() && i != j implies slots[i]
            != slots[j] by {
            lemma_slot_injective(keys, i, j);
        }
    }
    lemma_pigeonhole_onto(slots, q);
    let i = choose|i: int| 0 <= i < slots.len() && slots[i] == q;
    assert(0 <= i < keys.len() && stable_slot(keys, i) == q);
}

/// Along the places, keys do not fall, and items of one key keep their order.
pub proof fn lemma_source_order(keys: Seq<int>, q1: int, q2: int)
    requires
        0 <= q1 < q2 < keys.len(),
    ensures
        keys[stable_source(keys, q1)] < keys[stable_source(keys, q2)] || (keys[stable_source(
            keys,
            q1,
        )] == keys[stable_source(keys, q2)] && stable_source(keys, q1) < stable_source(keys, q2)),
{
    lemma_slot_onto(keys, q1);
    lemma_slot_onto(keys, q2);
    let a = stable_source(keys, q1);
    let b = stable_source(keys, q2);
    if !(keys[a] < keys[b] || (keys[a] == keys[b] && a < b)) {
        if a != b {
            lemma_slot_order(keys, b, a);
        }
    }
}

/// The keys by which `sort_by_class` sorts: the class of each item.
pub open spec fn keys_of(src: Seq<usize>, class: Seq<usize>) -> Seq<int> {
    Seq::new(src.len(), |i: int| class[src[i] as int] as int)
}

/// Sorts `src` by the class of each item, items of one class keeping their
/// order: a counting sort over `bound` buckets.
pub fn sort_by_class(src: &Vec<usize>, class: &Vec<usize>, bound: usize) -> (dst: Vec<usize>)
    requires
        forall|i: int| 0 <= i < src.len() ==> src[i] < class.len(),
        forall|x: int| 0 <= x < class.len() ==> class[x] < bound,
    ensures
        dst.len() == src.len(),
        forall|q: int|
            0 <= q < src.len() ==> dst[q] == src[stable_source(keys_of(src@, class@), q)],
{
    let n = src.len();
    let ghost keys = keys_of(src@, class@);
    let mut count: Vec<usize> = Vec::new();
    let mut k: usize = 0;
    while k < bound
        invariant
            k <= bound,
            count.len() == k,
            forall|b: int| 0 <= b < k ==> count[b] == 0,
        decreases bound - k,
    {
        count.push(0);
        k += 1;
    }
    let mut i: usize = 0;
    while i < n
        invariant
            i <= n,
            n == src.len(),
            keys == keys_of(src@, class@),
            count.len() == bound,
            forall|j: int| 0 <= j < src.len() ==> src[j] < class.len(),
            forall|x: int| 0 <= x < class.len() ==> class[x] < bound,
            forall|b: int| 0 <= b < bound ==> count[b] == count_same(keys, i as int, b),
        decreases n - i,
    {
        let key = class[src[i]];
        proof {
            lemma_count_split(keys, i as int, key as int);
            assert(keys[i as int] == key);
        }
        count.set(key, count[key] + 1);
        i += 1;
    }
    let mut k: usize = 1;
    proof {
        lemma_count_split(keys, n as int, 0);
        if bound > 0 {
            assert(count_below(keys, n as int, 0) == 0) by {
                lemma_count_below_none(keys, n as int);
            }
        }
    }
    while k < bound
        invariant
            1 <= k,
            n == src.len(),
            keys.len() == n,
            count.len() == bound,
            forall|b: int|
                0 <= b < k && b < bound ==> count[b] == count_below(keys, n as int, b + 1),
            forall|b: int| k <= b < bound ==> count[b] == count_same(keys, n as int, b),
        decreases bound - k,
    {
        proof {
            lemma_count_split(keys, n as int, k as int);
            lemma_count_split(keys, n as int, k as int + 1);
        }
        count.set(k, count[k] + count[k - 1]);
        k += 1;
    }
    let mut dst: Vec<usize> = Vec::new();
    let mut i: usize = 0;
    while i < n
        invariant
            i <= n,
            dst.len() == i,
        decreases n - i,
    {
        dst.push(0);
        i += 1;
    }
    proof {
        assert forall|b: int| 0 <= b < bound implies count[b] == count_below(keys, n as int, b)
            + count_same(keys, n as int, b) by {
            lemma_count_split(keys, n as int, b);
        }
    }
    let mut i: usize = n;
    while i > 0
        invariant
            i <= n,
            n == src.len(),
            dst.len() == n,
            keys == keys_of(src@, class@),
            count.len() == bound,
            forall|j: int| 0 <= j < src.len() ==> src[j] < class.len(),
            forall|x: int| 0 <= x < class.len() ==> class[x] < bound,
            forall|b: int|
                0 <= b < bound ==> count[b] == count_below(keys, n as int, b) + count_same(
                    keys,
                    i as int,
                    b,
                ),
            forall|j: int| i <= j < n ==> dst[stable_slot(keys, j)] == src[j],
        decreases i,
    {
        i -= 1;
        let key = class[src[i]];
        proof {
            assert(keys[i as int] == key);
            lemma_slot_range(keys, i as int);
            lemma_count_split(keys, i as int, key as int);
            assert forall|j: int| i < j < n implies stable_slot(keys, j) != stable_slot(
                keys,
                i as int,
            ) by {
                lemma_slot_injective(keys, i as int, j);
            }
        }
        count.set(key, count[key] - 1);
        let ghost before = dst@;
        dst.set(count[key], src[i]);
        proof {
            assert(count[key as int] == stable_slot(keys, i as int));
            assert forall|j: int| i <= j < n implies dst[stable_slot(keys, j)] == src[j] by {
                lemma_slot_range(keys, j);
                if j > i {
                    assert(before[stable_slot(keys, j)] == src[j]);
                }
            }
        }
    }
    proof {
        assert forall|q: int| 0 <= q < src.len() implies dst[q] == src[stable_source(keys, q)] by {
            lemma_slot_onto(keys, q);
        }
    }
    dst
}

/// No key that is at least zero lies below zero.
pub proof fn lemma_count_below_none(keys: Seq<int>, m: int)
    requires
        0 <= m <= keys.len(),
        forall|i: int| 0 <= i < m ==> 0 <= keys[i],
    ensures
        count_below(keys, m, 0) == 0,
    decreases m,
{
    if m > 0 {
        lemma_count_below_none(keys, m - 1);
    }
}

} // verus!
