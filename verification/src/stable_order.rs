//! Stable sorting by a key, stated by rank: the item that a stable sort puts
//! at position `t` is the one before which exactly `t` items come, where item
//! `j` comes before item `k` when its key is smaller, or equal with `j < k`.
use vstd::prelude::*;
use vstd::relations::injective_on;
use vstd::set_lib::*;

verus! {

/// Item `j` comes before item `k` in a stable sort by `keys`.
pub open spec fn key_before(keys: Seq<usize>, j: int, k: int) -> bool {
    keys[j] < keys[k] || (keys[j] == keys[k] && j < k)
}

/// The items among the first `i` that come before item `k`.
pub open spec fn before_set(keys: Seq<usize>, k: int, i: int) -> Set<int> {
    Set::new(|j: int| 0 <= j < i && key_before(keys, j, k))
}

/// The number of items that come before item `k`: its position after a stable sort.
pub open spec fn stable_rank(keys: Seq<usize>, k: int) -> int {
    before_set(keys, k, keys.len() as int).len() as int
}

/// The item that a stable sort by `keys` puts at position `t`.
pub open spec fn item_at_rank(keys: Seq<usize>, t: int) -> int {
    choose|k: int| 0 <= k < keys.len() && stable_rank(keys, k) == t
}

/// `items` stably sorted by `keys` (one key per item).
pub open spec fn stably_sorted<T>(items: Seq<T>, keys: Seq<usize>) -> Seq<T> {
    Seq::new(items.len(), |t: int| items[item_at_rank(keys, t)])
}

proof fn lemma_before_set_bounded(keys: Seq<usize>, k: int, i: int)
    requires
        0 <= i,
    ensures
        before_set(keys, k, i).subset_of(set_int_range(0, i)),
        before_set(keys, k, i).finite(),
        before_set(keys, k, i).len() <= i,
{
    lemma_int_range(0, i);
    lemma_len_subset(before_set(keys, k, i), set_int_range(0, i));
}

/// Counting one more item extends the set of items before `k` by that item
/// exactly when it comes before `k`.
pub proof fn lemma_before_set_step(keys: Seq<usize>, k: int, i: int)
    requires
        0 <= i,
    ensures
        before_set(keys, k, i).finite(),
        before_set(keys, k, i + 1).len() == before_set(keys, k, i).len() + if key_before(keys, i, k) {
            1int
        } else {
            0int
        },
{
    lemma_before_set_bounded(keys, k, i);
    if key_before(keys, i, k) {
        assert(before_set(keys, k, i + 1) =~= before_set(keys, k, i).insert(i));
    } else {
        assert(before_set(keys, k, i + 1) =~= before_set(keys, k, i));
    }
}

/// Ranks lie below the number of items, and an item that comes before another
/// has a smaller rank.
pub proof fn lemma_rank_order(keys: Seq<usize>, a: int, b: int)
    requires
        0 <= a < keys.len(),
        0 <= b < keys.len(),
    ensures
        0 <= stable_rank(keys, a) < keys.len(),
        key_before(keys, a, b) ==> stable_rank(keys, a) < stable_rank(keys, b),
        a != b ==> stable_rank(keys, a) != stable_rank(keys, b),
{
    let n = keys.len() as int;
    lemma_before_set_bounded(keys, a, n);
    lemma_before_set_bounded(keys, b, n);
    lemma_int_range(0, n);
    assert(before_set(keys, a, n).subset_of(set_int_range(0, n).remove(a)));
    lemma_len_subset(before_set(keys, a, n), set_int_range(0, n).remove(a));
    if key_before(keys, a, b) {
        assert(before_set(keys, a, n).insert(a).subset_of(before_set(keys, b, n)));
        lemma_len_subset(before_set(keys, a, n).insert(a), before_set(keys, b, n));
    }
    if key_before(keys, b, a) {
        assert(before_set(keys, b, n).insert(b).subset_of(before_set(keys, a, n)));
        lemma_len_subset(before_set(keys, b, n).insert(b), before_set(keys, a, n));
    }
}

/// Every position below the number of items is the rank of exactly one item.
pub proof fn lemma_rank_onto(keys: Seq<usize>, t: int)
    requires
        0 <= t < keys.len(),
    ensures
        0 <= item_at_rank(keys, t) < keys.len(),
        stable_rank(keys, item_at_rank(keys, t)) == t,
{
    let n = keys.len() as int;
    let dom = set_int_range(0, n);
    let f = |k: int| stable_rank(keys, k);
    lemma_int_range(0, n);
    assert forall|x: int, y: int| dom.contains(x) && dom.contains(y) && #[trigger] f(x) == #[trigger] f(y) implies x
        == y by {
        lemma_rank_order(keys, x, y);
    }
    assert(injective_on(f, dom));
    lemma_map_size(dom, dom.map(f), f);
    assert forall|r: int| dom.map(f).contains(r) implies dom.contains(r) by {
        let k = choose|k: int| dom.contains(k) && f(k) == r;
        lemma_rank_order(keys, k, k);
    }
    lemma_subset_equality(dom.map(f), dom);
    assert(dom.map(f).contains(t));
    let k = choose|k: int| dom.contains(k) && f(k) == t;
    assert(0 <= k < n && stable_rank(keys, k) == t);
}

/// The item placed at a position is the one whose rank is that position.
pub proof fn lemma_item_at_rank_unique(keys: Seq<usize>, t: int, k: int)
    requires
        0 <= k < keys.len(),
        stable_rank(keys, k) == t,
    ensures
        item_at_rank(keys, t) == k,
{
    lemma_rank_order(keys, k, k);
    lemma_rank_onto(keys, t);
    lemma_rank_order(keys, k, item_at_rank(keys, t));
}

/// The rank of every item.
pub fn stable_ranks(keys: &Vec<usize>) -> (ranks: Vec<usize>)
    ensures
        ranks@.len() == keys@.len(),
        forall|k: int| 0 <= k < keys@.len() ==> #[trigger] ranks@[k] as int == stable_rank(keys@, k),
{
    let n = keys.len();
    let mut ranks: Vec<usize> = Vec::new();
    let mut k: usize = 0;
    while k < n
        invariant
            n == keys@.len(),
            k <= n,
            ranks@.len() == k,
            forall|m: int| 0 <= m < k ==> #[trigger] ranks@[m] as int == stable_rank(keys@, m),
        decreases n - k,
    {
        let mut count: usize = 0;
        let mut i: usize = 0;
        proof {
            assert(before_set(keys@, k as int, 0) =~= Set::<int>::empty());
        }
        while i < n
            invariant
                n == keys@.len(),
                k < n,
                i <= n,
                count as int == before_set(keys@, k as int, i as int).len(),
                count <= i,
            decreases n - i,
        {
            proof {
                lemma_before_set_step(keys@, k as int, i as int);
            }
            if keys[i] < keys[k] || (keys[i] == keys[k] && i < k) {
                count += 1;
            }
            i += 1;
        }
        ranks.push(count);
        k += 1;
    }
    ranks
}

} // verus!
