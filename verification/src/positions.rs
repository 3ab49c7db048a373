//! Facts about sequences with some positions removed, and about filters.
use vstd::prelude::*;

verus! {

/// `ps` lists distinct positions of a sequence of length `n` in increasing order.
pub open spec fn increasing_positions(ps: Seq<int>, n: int) -> bool {
    &&& forall|k: int| 0 <= k < ps.len() ==> 0 <= #[trigger] ps[k] < n
    &&& forall|a: int, b: int| 0 <= a < b < ps.len() ==> #[trigger] ps[a] < #[trigger] ps[b]
}

/// `s` without the elements at positions `ps[j]`, ..., `ps[ps.len() - 1]`
/// (removed from the last to the `j`-th, so that each position still names
/// the element of `s` it named).
pub open spec fn without_positions<A>(s: Seq<A>, ps: Seq<int>, j: int) -> Seq<A>
    decreases ps.len() - j,
{
    if j < 0 || j >= ps.len() {
        s
    } else {
        without_positions(s, ps, j + 1).remove(ps[j])
    }
}

/// The `k`-th of `m` increasing positions below `n` is at most `n - (m - k)`.
pub proof fn lemma_position_room(ps: Seq<int>, n: int, k: int)
    requires
        increasing_positions(ps, n),
        0 <= k < ps.len(),
    ensures
        ps[k] <= n - (ps.len() - k),
    decreases ps.len() - k,
{
    if k + 1 < ps.len() {
        lemma_position_room(ps, n, k + 1);
        assert(ps[k] < ps[k + 1]);
    }
}

/// Removing the positions from `j` on leaves `m - j` fewer elements and keeps
/// every element before `ps[j]` in place.
pub proof fn lemma_without_positions_shape<A>(s: Seq<A>, ps: Seq<int>, j: int)
    requires
        increasing_positions(ps, s.len() as int),
        0 <= j <= ps.len(),
    ensures
        without_positions(s, ps, j).len() == s.len() - (ps.len() - j),
        forall|i: int|
            0 <= i < (if j < ps.len() { ps[j] } else { s.len() as int }) ==> #[trigger] without_positions(
                s,
                ps,
                j,
            )[i] == s[i],
    decreases ps.len() - j,
{
    if j < ps.len() {
        lemma_without_positions_shape(s, ps, j + 1);
        lemma_position_room(ps, s.len() as int, j);
        if j + 1 < ps.len() {
            assert(ps[j] < ps[j + 1]);
        }
    }
}

/// The element at `ps[j]`, before it is removed, is the element of `s` there.
pub proof fn lemma_without_positions_at<A>(s: Seq<A>, ps: Seq<int>, j: int)
    requires
        increasing_positions(ps, s.len() as int),
        0 <= j < ps.len(),
    ensures
        ps[j] < without_positions(s, ps, j + 1).len(),
        without_positions(s, ps, j + 1)[ps[j]] == s[ps[j]],
        without_positions(s, ps, j) == without_positions(s, ps, j + 1).remove(ps[j]),
        without_positions(s, ps, j).len() >= ps[j],
{
    lemma_without_positions_shape(s, ps, j + 1);
    lemma_without_positions_shape(s, ps, j);
    lemma_position_room(ps, s.len() as int, j);
    if j + 1 < ps.len() {
        assert(ps[j] < ps[j + 1]);
    }
}

/// Every element satisfies `p` in a sequence that `p` filters to itself.
pub proof fn lemma_filter_all<A>(s: Seq<A>, p: spec_fn(A) -> bool)
    requires
        forall|i: int| 0 <= i < s.len() ==> p(#[trigger] s[i]),
    ensures
        s.filter(p) == s,
    decreases s.len(),
{
    reveal(Seq::filter);
    if s.len() > 0 {
        lemma_filter_all(s.drop_last(), p);
        assert(s.drop_last().push(s.last()) =~= s);
    }
}

/// Inserting an element that `p` rejects does not change the filter.
pub proof fn lemma_filter_insert_rejected<A>(s: Seq<A>, k: int, x: A, p: spec_fn(A) -> bool)
    requires
        0 <= k <= s.len(),
        !p(x),
    ensures
        s.insert(k, x).filter(p) == s.filter(p),
{
    reveal_with_fuel(Seq::filter, 2);
    assert(s.insert(k, x) =~= s.take(k) + seq![x] + s.skip(k));
    assert(s =~= s.take(k) + s.skip(k));
    Seq::filter_distributes_over_add(s.take(k) + seq![x], s.skip(k), p);
    Seq::filter_distributes_over_add(s.take(k), seq![x], p);
    Seq::filter_distributes_over_add(s.take(k), s.skip(k), p);
    assert(seq![x].drop_last() =~= Seq::<A>::empty());
    assert(seq![x].filter(p) =~= Seq::<A>::empty());
}

/// Removing the positions `ps` that `p` rejects, and only those, is the filter by `p`.
pub proof fn lemma_filter_is_without_positions<A>(s: Seq<A>, ps: Seq<int>, p: spec_fn(A) -> bool)
    requires
        increasing_positions(ps, s.len() as int),
        forall|i: int| 0 <= i < s.len() ==> (p(#[trigger] s[i]) <==> !ps.contains(i)),
    ensures
        s.filter(p) == without_positions(s, ps, 0),
    decreases s.len(),
{
    reveal(Seq::filter);
    let n = s.len() as int;
    let m = ps.len() as int;
    if n == 0 {
        if m > 0 {
            assert(0 <= ps[0] < n);
        }
        return;
    }
    let s1 = s.drop_last();
    let x = s.last();
    assert(s1.push(x) =~= s);
    if m > 0 && ps[m - 1] == n - 1 {
        let ps1 = ps.drop_last();
        assert(!p(x)) by {
            assert(ps.contains(n - 1));
        }
        assert(increasing_positions(ps1, n - 1)) by {
            assert forall|k: int| 0 <= k < ps1.len() implies 0 <= #[trigger] ps1[k] < n - 1 by {
                assert(ps[k] < ps[m - 1]);
            }
        }
        assert forall|i: int| 0 <= i < s1.len() implies (p(#[trigger] s1[i]) <==> !ps1.contains(i)) by {
            assert(s1[i] == s[i]);
            if ps.contains(i) {
                let k = choose|k: int| 0 <= k < ps.len() && ps[k] == i;
                assert(ps1[k] == i);
            }
            if ps1.contains(i) {
                let k = choose|k: int| 0 <= k < ps1.len() && ps1[k] == i;
                assert(ps[k] == i);
            }
        }
        lemma_filter_is_without_positions(s1, ps1, p);
        lemma_without_positions_last(s, ps, 0);
        assert(s.filter(p) == s1.filter(p));
    } else {
        assert(p(x)) by {
            if ps.contains(n - 1) {
                let k = choose|k: int| 0 <= k < ps.len() && ps[k] == n - 1;
                if k < m - 1 {
                    assert(ps[k] < ps[m - 1]);
                }
            }
        }
        assert(increasing_positions(ps, n - 1)) by {
            assert forall|k: int| 0 <= k < ps.len() implies 0 <= #[trigger] ps[k] < n - 1 by {
                if k < m - 1 {
                    assert(ps[k] < ps[m - 1]);
                }
            }
        }
        assert forall|i: int| 0 <= i < s1.len() implies (p(#[trigger] s1[i]) <==> !ps.contains(i)) by {
            assert(s1[i] == s[i]);
        }
        lemma_filter_is_without_positions(s1, ps, p);
        lemma_without_positions_push(s1, x, ps, 0);
        assert(s.filter(p) == s1.filter(p).push(x));
    }
}

/// When the last position is the last element, removing it first leaves the
/// shorter sequence, and the other positions act on that.
proof fn lemma_without_positions_last<A>(s: Seq<A>, ps: Seq<int>, j: int)
    requires
        s.len() > 0,
        ps.len() > 0,
        ps[ps.len() - 1] == s.len() - 1,
        0 <= j <= ps.len() - 1,
    ensures
        without_positions(s, ps, j) == without_positions(s.drop_last(), ps.drop_last(), j),
    decreases ps.len() - j,
{
    assert(without_positions(s, ps, j) == without_positions(s, ps, j + 1).remove(ps[j]));
    if j == ps.len() - 1 {
        assert(without_positions(s, ps, j + 1) == s);
        assert(without_positions(s.drop_last(), ps.drop_last(), j) == s.drop_last());
        assert(s.remove(s.len() - 1) =~= s.drop_last());
    } else {
        lemma_without_positions_last(s, ps, j + 1);
        assert(ps.drop_last()[j] == ps[j]);
        assert(without_positions(s.drop_last(), ps.drop_last(), j) == without_positions(
            s.drop_last(),
            ps.drop_last(),
            j + 1,
        ).remove(ps[j]));
    }
}

/// Removing positions before the last element commutes with appending it.
proof fn lemma_without_positions_push<A>(s: Seq<A>, x: A, ps: Seq<int>, j: int)
    requires
        increasing_positions(ps, s.len() as int),
        0 <= j <= ps.len(),
    ensures
        without_positions(s.push(x), ps, j) == without_positions(s, ps, j).push(x),
    decreases ps.len() - j,
{
    if j < ps.len() {
        lemma_without_positions_push(s, x, ps, j + 1);
        lemma_without_positions_at(s, ps, j);
        assert(without_positions(s, ps, j + 1).push(x).remove(ps[j]) =~= without_positions(
            s,
            ps,
            j + 1,
        ).remove(ps[j]).push(x));
    }
}

/// Putting back the element that was removed at `i` restores the sequence.
pub proof fn lemma_remove_insert<A>(s: Seq<A>, i: int)
    requires
        0 <= i < s.len(),
    ensures
        s.remove(i).insert(i, s[i]) == s,
{
    assert(s.remove(i).insert(i, s[i]) =~= s);
}

/// Filtering a sequence without repeated elements leaves none.
pub proof fn lemma_filter_keeps_no_duplicates<A>(s: Seq<A>, p: spec_fn(A) -> bool)
    requires
        s.no_duplicates(),
    ensures
        s.filter(p).no_duplicates(),
    decreases s.len(),
{
    reveal_with_fuel(Seq::filter, 1);
    if s.len() > 0 {
        let rest = s.drop_last();
        let sub = rest.filter(p);
        assert(rest.no_duplicates());
        lemma_filter_keeps_no_duplicates(rest, p);
        if p(s.last()) {
            if sub.contains(s.last()) {
                rest.lemma_filter_contains_rev(p, s.last());
                let k = choose|k: int| 0 <= k < rest.len() && rest[k] == s.last();
                assert(s[k] == s[s.len() - 1]);
            }
            assert(sub.push(s.last()).no_duplicates()) by {
                assert forall|i: int, j: int|
                    0 <= i < sub.len() + 1 && 0 <= j < sub.len() + 1 && i != j implies
                    #[trigger] sub.push(s.last())[i] != #[trigger] sub.push(s.last())[j] by {
                    if i == sub.len() {
                        assert(sub.contains(sub[j]));
                    } else if j == sub.len() {
                        assert(sub.contains(sub[i]));
                    }
                }
            }
        }
    }
}

/// `f` of an element that `f` maps to something is in `s.filter_map(f)`.
pub proof fn lemma_filter_map_has<A, B>(s: Seq<A>, f: spec_fn(A) -> Option<B>, j: int)
    requires
        0 <= j < s.len(),
        f(s[j]) is Some,
    ensures
        s.filter_map(f).contains(f(s[j])->0),
    decreases s.len(),
{
    let rest = s.drop_last();
    let x = f(s[j])->0;
    let r = s.filter_map(f);
    if j == s.len() - 1 {
        assert(r == rest.filter_map(f) + seq![x]);
        assert(r[r.len() - 1] == x);
    } else {
        assert(rest[j] == s[j]);
        lemma_filter_map_has(rest, f, j);
        let q = rest.filter_map(f);
        let k = choose|k: int| 0 <= k < q.len() && q[k] == x;
        match f(s.last()) {
            Some(y) => {
                assert(r == q + seq![y]);
                assert(r[k] == x);
            },
            None => {
                assert(r == q);
            },
        }
    }
}

} // verus!
