//! Sums and concatenations over lists.

use vstd::prelude::*;

verus! {

/// The sum of `f` over the items of `s`.
pub open spec fn sum_by<V>(s: Seq<V>, f: spec_fn(V) -> nat) -> nat
    decreases s.len(),
{
    if s.len() == 0 {
        0
    } else {
        sum_by(s.drop_last(), f) + f(s.last())
    }
}

/// The lists that `f` gives for the items of `s`, one behind the other.
pub open spec fn flat_by<V, W>(s: Seq<V>, f: spec_fn(V) -> Seq<W>) -> Seq<W>
    decreases s.len(),
{
    if s.len() == 0 {
        Seq::empty()
    } else {
        flat_by(s.drop_last(), f) + f(s.last())
    }
}

/// A sum over the first items is the sum over one item fewer and the last of them.
pub proof fn sum_by_step<V>(s: Seq<V>, i: int, f: spec_fn(V) -> nat)
    requires
        0 <= i < s.len(),
    ensures
        sum_by(s.take(i + 1), f) == sum_by(s.take(i), f) + f(s[i]),
{
    assert(s.take(i + 1).drop_last() =~= s.take(i));
}

/// A sum over the first items is at most the sum over all.
pub proof fn sum_by_of_prefix<V>(s: Seq<V>, i: int, f: spec_fn(V) -> nat)
    requires
        0 <= i <= s.len(),
    ensures
        sum_by(s.take(i), f) <= sum_by(s, f),
    decreases s.len(),
{
    if i < s.len() {
        sum_by_of_prefix(s.drop_last(), i, f);
        assert(s.drop_last().take(i) =~= s.take(i));
    } else {
        assert(s.take(i) =~= s);
    }
}

/// An item's share is at most the sum.
pub proof fn sum_by_of_item<V>(s: Seq<V>, i: int, f: spec_fn(V) -> nat)
    requires
        0 <= i < s.len(),
    ensures
        f(s[i]) <= sum_by(s, f),
{
    sum_by_step(s, i, f);
    sum_by_of_prefix(s, i + 1, f);
}

/// The concatenation over the first items is that over one item fewer and the last of them.
pub proof fn flat_by_step<V, W>(s: Seq<V>, i: int, f: spec_fn(V) -> Seq<W>)
    requires
        0 <= i < s.len(),
    ensures
        flat_by(s.take(i + 1), f) == flat_by(s.take(i), f) + f(s[i]),
{
    assert(s.take(i + 1).drop_last() =~= s.take(i));
}

/// The concatenation over the first items is where that over all begins.
pub proof fn flat_by_of_prefix<V, W>(s: Seq<V>, i: int, f: spec_fn(V) -> Seq<W>)
    requires
        0 <= i <= s.len(),
    ensures
        flat_by(s.take(i), f).len() <= flat_by(s, f).len(),
        flat_by(s, f).take(flat_by(s.take(i), f).len() as int) == flat_by(s.take(i), f),
    decreases s.len(),
{
    if i < s.len() {
        flat_by_of_prefix(s.drop_last(), i, f);
        assert(s.drop_last().take(i) =~= s.take(i));
        let n = flat_by(s.take(i), f).len() as int;
        assert(flat_by(s, f).take(n) =~= flat_by(s.drop_last(), f).take(n));
    } else {
        assert(s.take(i) =~= s);
        assert(flat_by(s, f).take(flat_by(s, f).len() as int) =~= flat_by(s, f));
    }
}

/// What stands in a concatenation stands in one of its lists.
pub proof fn flat_by_members<V, W>(s: Seq<V>, f: spec_fn(V) -> Seq<W>, x: W)
    requires
        flat_by(s, f).contains(x),
    ensures
        exists|i: int| 0 <= i < s.len() && f(#[trigger] s[i]).contains(x),
    decreases s.len(),
{
    if s.len() > 0 {
        let front = flat_by(s.drop_last(), f);
        let all = flat_by(s, f);
        let k = choose|k: int| 0 <= k < all.len() && all[k] == x;
        if k < front.len() {
            assert(front[k] == x);
            flat_by_members(s.drop_last(), f, x);
            let i = choose|i: int|
                0 <= i < s.drop_last().len() && f(#[trigger] s.drop_last()[i]).contains(x);
            assert(f(s[i]).contains(x));
        } else {
            assert(f(s.last())[k - front.len()] == x);
            assert(f(s[s.len() - 1]).contains(x));
        }
    }
}

/// What stands in one of the lists stands in their concatenation.
pub proof fn flat_by_has<V, W>(s: Seq<V>, f: spec_fn(V) -> Seq<W>, i: int, x: W)
    requires
        0 <= i < s.len(),
        f(s[i]).contains(x),
    ensures
        flat_by(s, f).contains(x),
    decreases s.len(),
{
    let front = flat_by(s.drop_last(), f);
    let all = flat_by(s, f);
    if i < s.len() - 1 {
        flat_by_has(s.drop_last(), f, i, x);
        let k = choose|k: int| 0 <= k < front.len() && front[k] == x;
        assert(all[k] == x);
    } else {
        let own = f(s[i]);
        let k = choose|k: int| 0 <= k < own.len() && own[k] == x;
        assert(all[front.len() + k] == x);
    }
}

/// Filtering the first items is filtering one item fewer, and then the last of them.
pub proof fn filter_step<V>(s: Seq<V>, i: int, p: spec_fn(V) -> bool)
    requires
        0 <= i < s.len(),
    ensures
        s.take(i + 1).filter(p) == if p(s[i]) {
            s.take(i).filter(p).push(s[i])
        } else {
            s.take(i).filter(p)
        },
{
    reveal(Seq::filter);
    assert(s.take(i + 1).drop_last() =~= s.take(i));
}

/// What a filter passes is an item that meets it, and all such items are passed.
pub proof fn filter_members<V>(s: Seq<V>, p: spec_fn(V) -> bool, x: V)
    ensures
        s.filter(p).contains(x) <==> s.contains(x) && p(x),
    decreases s.len(),
{
    reveal(Seq::filter);
    if s.len() > 0 {
        let front = s.drop_last();
        filter_members(front, p, x);
        if s.contains(x) && s.last() != x {
            let k = choose|k: int| 0 <= k < s.len() && s[k] == x;
            assert(front[k] == x);
        }
        if front.contains(x) {
            let k = choose|k: int| 0 <= k < front.len() && front[k] == x;
            assert(s[k] == x);
        }
        let kept = front.filter(p);
        if p(s.last()) {
            let now = kept.push(s.last());
            if kept.contains(x) {
                let k = choose|k: int| 0 <= k < kept.len() && kept[k] == x;
                assert(now[k] == x);
            }
            if s.last() == x {
                assert(now[now.len() - 1] == x);
                assert(s[s.len() - 1] == x);
            }
            if now.contains(x) {
                let k = choose|k: int| 0 <= k < now.len() && now[k] == x;
                if k < kept.len() {
                    assert(kept[k] == x);
                }
            }
        }
    }
}

/// What a filter passes of the first items is where that of all begins.
pub proof fn filter_of_prefix<V>(s: Seq<V>, i: int, p: spec_fn(V) -> bool)
    requires
        0 <= i <= s.len(),
    ensures
        s.take(i).filter(p).len() <= s.filter(p).len(),
        s.filter(p).take(s.take(i).filter(p).len() as int) == s.take(i).filter(p),
    decreases s.len(),
{
    reveal(Seq::filter);
    if i < s.len() {
        filter_of_prefix(s.drop_last(), i, p);
        assert(s.drop_last().take(i) =~= s.take(i));
        let n = s.take(i).filter(p).len() as int;
        assert(s.filter(p).take(n) =~= s.drop_last().filter(p).take(n));
    } else {
        assert(s.take(i) =~= s);
        assert(s.filter(p).take(s.filter(p).len() as int) =~= s.filter(p));
    }
}

/// The sum of two functions is the sum of their sums.
pub proof fn sum_by_of_sum<V>(
    s: Seq<V>,
    f: spec_fn(V) -> nat,
    g: spec_fn(V) -> nat,
    h: spec_fn(V) -> nat,
)
    requires
        forall|v: V| #[trigger] h(v) == f(v) + g(v),
    ensures
        sum_by(s, h) == sum_by(s, f) + sum_by(s, g),
    decreases s.len(),
{
    if s.len() > 0 {
        sum_by_of_sum(s.drop_last(), f, g, h);
        assert(h(s.last()) == f(s.last()) + g(s.last()));
    }
}

/// The sum of a function that is zero on all items is zero.
pub proof fn sum_by_of_zero<V>(s: Seq<V>, f: spec_fn(V) -> nat)
    requires
        forall|i: int| 0 <= i < s.len() ==> f(#[trigger] s[i]) == 0,
    ensures
        sum_by(s, f) == 0,
    decreases s.len(),
{
    if s.len() > 0 {
        let front = s.drop_last();
        assert forall|i: int| 0 <= i < front.len() implies f(#[trigger] front[i]) == 0 by {
            assert(front[i] == s[i]);
        }
        sum_by_of_zero(front, f);
        assert(f(s[s.len() - 1]) == 0);
    }
}

/// The sum of a function that is zero on all items but `x`, which stands in the list once.
pub proof fn sum_by_of_one<V>(s: Seq<V>, x: V, f: spec_fn(V) -> nat)
    requires
        s.no_duplicates(),
        s.contains(x),
        forall|v: V| v != x ==> #[trigger] f(v) == 0,
    ensures
        sum_by(s, f) == f(x),
    decreases s.len(),
{
    let front = s.drop_last();
    let k = choose|k: int| 0 <= k < s.len() && s[k] == x;
    if k == s.len() - 1 {
        assert forall|i: int| 0 <= i < front.len() implies f(#[trigger] front[i]) == 0 by {
            assert(s[i] != s[k]);
        }
        sum_by_of_zero(front, f);
    } else {
        assert(front[k] == x);
        assert(s[s.len() - 1] != s[k]);
        assert(f(s.last()) == 0);
        assert forall|i: int, j: int|
            0 <= i < front.len() && 0 <= j < front.len() && i != j implies front[i] != front[j] by {
            assert(s[i] != s[j]);
        }
        sum_by_of_one(front, x, f);
    }
}

/// The sum over mapped items is the sum of the composition.
pub proof fn sum_by_of_map<V, W>(
    s: Seq<V>,
    m: spec_fn(V) -> W,
    f: spec_fn(W) -> nat,
    g: spec_fn(V) -> nat,
)
    requires
        forall|v: V| #[trigger] g(v) == f(m(v)),
    ensures
        sum_by(s.map_values(m), f) == sum_by(s, g),
    decreases s.len(),
{
    if s.len() > 0 {
        sum_by_of_map(s.drop_last(), m, f, g);
        assert(s.map_values(m).drop_last() =~= s.drop_last().map_values(m));
        assert(g(s.last()) == f(m(s.last())));
    }
}

/// Items that each count one add up to their number.
pub proof fn sum_by_of_ones<V>(s: Seq<V>, f: spec_fn(V) -> nat)
    requires
        forall|v: V| #[trigger] f(v) == 1,
    ensures
        sum_by(s, f) == s.len(),
    decreases s.len(),
{
    if s.len() > 0 {
        sum_by_of_ones(s.drop_last(), f);
        assert(f(s.last()) == 1);
    }
}

proof fn sum_by_of_concat<V>(a: Seq<V>, b: Seq<V>, g: spec_fn(V) -> nat)
    ensures
        sum_by(a + b, g) == sum_by(a, g) + sum_by(b, g),
    decreases b.len(),
{
    if b.len() == 0 {
        assert(a + b =~= a);
    } else {
        sum_by_of_concat(a, b.drop_last(), g);
        assert((a + b).drop_last() =~= a + b.drop_last());
    }
}

/// A sum over a concatenation is the sum of the sums over its lists.
pub proof fn flat_by_sum<V, W>(s: Seq<V>, f: spec_fn(V) -> Seq<W>, g: spec_fn(W) -> nat)
    ensures
        sum_by(flat_by(s, f), g) == sum_by(s, |v: V| sum_by(f(v), g)),
    decreases s.len(),
{
    if s.len() > 0 {
        flat_by_sum(s.drop_last(), f, g);
        sum_by_of_concat(flat_by(s.drop_last(), f), f(s.last()), g);
    }
}

/// The first `n` items, or all of them where there are fewer.
pub open spec fn first_items<V>(s: Seq<V>, n: nat) -> Seq<V> {
    if s.len() <= n {
        s
    } else {
        s.take(n as int)
    }
}

/// Items that give nothing can be left out of a concatenation.
pub proof fn flat_by_of_filter<V, W>(s: Seq<V>, p: spec_fn(V) -> bool, f: spec_fn(V) -> Seq<W>)
    requires
        forall|v: V| !p(v) ==> (#[trigger] f(v)).len() == 0,
    ensures
        flat_by(s.filter(p), f) == flat_by(s, f),
    decreases s.len(),
{
    reveal(Seq::filter);
    if s.len() > 0 {
        let front = s.drop_last();
        flat_by_of_filter(front, p, f);
        if p(s.last()) {
            assert(front.filter(p).push(s.last()).drop_last() =~= front.filter(p));
        } else {
            assert(f(s.last()).len() == 0);
            assert(flat_by(front, f) + f(s.last()) =~= flat_by(front, f));
        }
    }
}

/// Filtering twice is filtering once.
pub proof fn filter_of_filter<V>(s: Seq<V>, p: spec_fn(V) -> bool)
    ensures
        s.filter(p).filter(p) == s.filter(p),
    decreases s.len(),
{
    reveal(Seq::filter);
    if s.len() > 0 {
        let front = s.drop_last();
        filter_of_filter(front, p);
        if p(s.last()) {
            assert(front.filter(p).push(s.last()).drop_last() =~= front.filter(p));
        }
    }
}

proof fn sum_by_of_removed<V>(s: Seq<V>, k: int, f: spec_fn(V) -> nat)
    requires
        0 <= k < s.len(),
    ensures
        sum_by(s, f) == sum_by(s.remove(k), f) + f(s[k]),
    decreases s.len(),
{
    let front = s.drop_last();
    if k == s.len() - 1 {
        assert(s.remove(k) =~= front);
    } else {
        sum_by_of_removed(front, k, f);
        assert(s.remove(k).drop_last() =~= front.remove(k));
    }
}

/// A sum does not depend on the order of the items.
pub proof fn sum_by_of_permutation<V>(s: Seq<V>, t: Seq<V>, f: spec_fn(V) -> nat)
    requires
        s.to_multiset() == t.to_multiset(),
    ensures
        sum_by(s, f) == sum_by(t, f),
    decreases s.len(),
{
    broadcast use vstd::seq_lib::group_to_multiset_ensures;

    assert(s.len() == s.to_multiset().len() && t.len() == t.to_multiset().len());
    if s.len() > 0 {
        let front = s.drop_last();
        let x = s.last();
        assert(s =~= front.push(x));
        assert(s[s.len() - 1] == x);
        assert(s.contains(x) && s.to_multiset().count(x) > 0);
        assert(t.contains(x));
        let k = choose|k: int| 0 <= k < t.len() && t[k] == x;
        vstd::seq_lib::to_multiset_remove(t, k);
        assert(front.to_multiset() =~= t.remove(k).to_multiset());
        sum_by_of_permutation(front, t.remove(k), f);
        sum_by_of_removed(t, k, f);
    } else {
        assert(s =~= t);
    }
}

/// A list without repeats is known by its items, but for their order.
pub proof fn same_members_same_items<V>(s: Seq<V>, t: Seq<V>)
    requires
        s.no_duplicates(),
        t.no_duplicates(),
        forall|x: V| #[trigger] s.contains(x) <==> t.contains(x),
    ensures
        s.to_multiset() == t.to_multiset(),
{
    broadcast use vstd::seq_lib::group_to_multiset_ensures;

    s.lemma_multiset_has_no_duplicates();
    t.lemma_multiset_has_no_duplicates();
    assert forall|x: V| #[trigger] s.to_multiset().count(x) == t.to_multiset().count(x) by {
        assert(s.contains(x) <==> s.to_multiset().count(x) > 0);
        assert(t.contains(x) <==> t.to_multiset().count(x) > 0);
        if s.contains(x) {
            assert(s.to_multiset().contains(x) && t.to_multiset().contains(x));
        }
    }
    assert(s.to_multiset() =~= t.to_multiset());
}

// ---------------------------------------------------------------------------
// Counting places
// ---------------------------------------------------------------------------

/// How many of the first `n` numbers have the property `p`.
pub open spec fn count_below(n: nat, p: spec_fn(int) -> bool) -> nat {
    Seq::new(n, |i: int| i).filter(p).len()
}

/// One number more adds one where it has the property.
pub proof fn count_below_step(n: nat, p: spec_fn(int) -> bool)
    ensures
        count_below(0, p) == 0,
        count_below(n + 1, p) == count_below(n, p) + if p(n as int) {
            1nat
        } else {
            0
        },
{
    reveal(Seq::filter);
    let all = Seq::new(n + 1, |i: int| i);
    assert(all.drop_last() =~= Seq::new(n, |i: int| i));
    assert(all.last() == n);
}

/// Properties that agree on the first `n` numbers hold of equally many of them.
pub proof fn count_below_same(n: nat, p: spec_fn(int) -> bool, q: spec_fn(int) -> bool)
    requires
        forall|i: int| 0 <= i < n ==> #[trigger] p(i) == q(i),
    ensures
        count_below(n, p) == count_below(n, q),
    decreases n,
{
    if n > 0 {
        count_below_same((n - 1) as nat, p, q);
        count_below_step((n - 1) as nat, p);
        count_below_step((n - 1) as nat, q);
        assert(p(n - 1) == q(n - 1));
    } else {
        count_below_step(0, p);
        count_below_step(0, q);
    }
}

/// A sum over two lists, one behind the other, is the sum of their sums, and one over a single item
/// is what that item gives.
pub proof fn sum_by_of_parts<V>(s: Seq<V>, t: Seq<V>, x: V, f: spec_fn(V) -> nat)
    ensures
        sum_by(s + t, f) == sum_by(s, f) + sum_by(t, f),
        sum_by(seq![x], f) == f(x),
        sum_by(Seq::<V>::empty(), f) == 0,
    decreases t.len(),
{
    reveal_with_fuel(sum_by, 2);
    assert(seq![x].drop_last() =~= Seq::<V>::empty());
    if t.len() > 0 {
        sum_by_of_parts(s, t.drop_last(), x, f);
        assert((s + t).drop_last() =~= s + t.drop_last());
        assert((s + t).last() == t.last());
    } else {
        assert(s + t =~= s);
    }
}

/// A concatenation over two lists, one behind the other, is that over the first and then that over
/// the second, and one over a single item is what that item gives.
pub proof fn flat_by_of_parts<V, W>(s: Seq<V>, t: Seq<V>, x: V, f: spec_fn(V) -> Seq<W>)
    ensures
        flat_by(s + t, f) == flat_by(s, f) + flat_by(t, f),
        flat_by(seq![x], f) == f(x),
        flat_by(Seq::<V>::empty(), f) == Seq::<W>::empty(),
    decreases t.len(),
{
    reveal_with_fuel(flat_by, 2);
    assert(seq![x].drop_last() =~= Seq::<V>::empty());
    assert(flat_by(seq![x], f) =~= f(x));
    if t.len() > 0 {
        flat_by_of_parts(s, t.drop_last(), x, f);
        assert((s + t).drop_last() =~= s + t.drop_last());
        assert((s + t).last() == t.last());
        assert(flat_by(s + t, f) =~= flat_by(s, f) + flat_by(t, f));
    } else {
        assert(s + t =~= s);
        assert(flat_by(s + t, f) =~= flat_by(s, f) + flat_by(t, f));
    }
}

/// A sum of ones and zeros counts the items that give one.
pub proof fn sum_by_counts<V>(s: Seq<V>, p: spec_fn(V) -> bool, f: spec_fn(V) -> nat)
    requires
        forall|v: V| #[trigger] f(v) == if p(v) {
            1nat
        } else {
            0
        },
    ensures
        sum_by(s, f) == s.filter(p).len(),
    decreases s.len(),
{
    reveal(Seq::filter);
    if s.len() > 0 {
        sum_by_counts(s.drop_last(), p, f);
    }
}

/// Selecting twice selects what both selections let pass.
pub proof fn filter_twice<V>(
    s: Seq<V>,
    p: spec_fn(V) -> bool,
    q: spec_fn(V) -> bool,
    both: spec_fn(V) -> bool,
)
    requires
        forall|v: V| #[trigger] both(v) == (p(v) && q(v)),
    ensures
        s.filter(p).filter(q) == s.filter(both),
    decreases s.len(),
{
    reveal(Seq::filter);
    if s.len() > 0 {
        let front = s.drop_last();
        filter_twice(front, p, q, both);
        assert(both(s.last()) == (p(s.last()) && q(s.last())));
        if p(s.last()) {
            assert(front.filter(p).push(s.last()).drop_last() =~= front.filter(p));
        }
    }
}

/// Selections that agree on the items of a list select the same.
pub proof fn filter_same<V>(s: Seq<V>, p: spec_fn(V) -> bool, q: spec_fn(V) -> bool)
    requires
        forall|i: int| 0 <= i < s.len() ==> p(#[trigger] s[i]) == q(s[i]),
    ensures
        s.filter(p) == s.filter(q),
    decreases s.len(),
{
    reveal(Seq::filter);
    if s.len() > 0 {
        let front = s.drop_last();
        assert forall|i: int| 0 <= i < front.len() implies p(#[trigger] front[i]) == q(front[i]) by {
            assert(front[i] == s[i]);
        }
        filter_same(front, p, q);
        assert(p(s[s.len() - 1]) == q(s[s.len() - 1]));
    }
}

/// A concatenation of lists with one item or none selects the items that give one.
pub proof fn flat_by_selects<V, W>(
    s: Seq<V>,
    p: spec_fn(V) -> bool,
    g: spec_fn(V) -> W,
    f: spec_fn(V) -> Seq<W>,
)
    requires
        forall|v: V| #[trigger] f(v) == if p(v) {
            seq![g(v)]
        } else {
            Seq::empty()
        },
    ensures
        flat_by(s, f) == s.filter(p).map_values(g),
    decreases s.len(),
{
    reveal(Seq::filter);
    if s.len() > 0 {
        let front = s.drop_last();
        flat_by_selects(front, p, g, f);
        assert(flat_by(s, f) =~= s.filter(p).map_values(g));
    } else {
        assert(flat_by(s, f) =~= s.filter(p).map_values(g));
    }
}

/// Selecting what was made of items is making what was selected of them.
pub proof fn filter_of_map<V, W>(
    s: Seq<V>,
    m: spec_fn(V) -> W,
    p: spec_fn(V) -> bool,
    q: spec_fn(W) -> bool,
)
    requires
        forall|v: V| #[trigger] p(v) == q(m(v)),
    ensures
        s.map_values(m).filter(q) == s.filter(p).map_values(m),
    decreases s.len(),
{
    reveal(Seq::filter);
    if s.len() > 0 {
        let front = s.drop_last();
        filter_of_map(front, m, p, q);
        assert(s.map_values(m).drop_last() =~= front.map_values(m));
        assert(s.map_values(m).last() == m(s.last()));
        assert(p(s.last()) == q(m(s.last())));
    }
    assert(s.map_values(m).filter(q) =~= s.filter(p).map_values(m));
}

} // verus!
