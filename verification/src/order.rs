//! Stable sorting by an explicit order.

use crate::lists;
use vstd::prelude::*;

verus! {

/// A total preorder on the models of `T`, with an executable test.
pub trait Order<T: DeepView> {
    /// Whether `a` may stand before `b`.
    spec fn leq(a: T::V, b: T::V) -> bool;

    /// Decides [`Order::leq`].
    fn at_or_before(a: &T, b: &T) -> (answer: bool)
        ensures
            answer == Self::leq(a.deep_view(), b.deep_view()),
    ;

    /// Any two models are ordered one way or the other.
    proof fn total(a: T::V, b: T::V)
        ensures
            Self::leq(a, b) || Self::leq(b, a),
    ;

    /// The order is transitive.
    proof fn transitive(a: T::V, b: T::V, c: T::V)
        requires
            Self::leq(a, b),
            Self::leq(b, c),
        ensures
            Self::leq(a, c),
    ;
}

/// The order `O` as a function on models.
pub open spec fn order_of<T: DeepView, O: Order<T>>() -> spec_fn(T::V, T::V) -> bool {
    |a: T::V, b: T::V| O::leq(a, b)
}

/// `x` put into `s` behind the last item that may stand before it.
pub open spec fn inserted<V>(s: Seq<V>, x: V, leq: spec_fn(V, V) -> bool) -> Seq<V>
    decreases s.len(),
{
    if s.len() == 0 {
        seq![x]
    } else if leq(s.last(), x) {
        s.push(x)
    } else {
        inserted(s.drop_last(), x, leq).push(s.last())
    }
}

/// The items of `s` in ascending order; items that are equal in the order keep their positions
/// relative to one another.
pub open spec fn sorted<V>(s: Seq<V>, leq: spec_fn(V, V) -> bool) -> Seq<V>
    decreases s.len(),
{
    if s.len() == 0 {
        Seq::empty()
    } else {
        inserted(sorted(s.drop_last(), leq), s.last(), leq)
    }
}

/// Whether no item of `s` stands behind one that it has to precede.
pub open spec fn ascending<V>(s: Seq<V>, leq: spec_fn(V, V) -> bool) -> bool {
    forall|i: int, j: int| 0 <= i < j < s.len() ==> #[trigger] leq(s[i], s[j])
}

/// Two lists in one, from the end: the last item is that of `t`, unless the last of `s` has to stand
/// behind it.
spec fn merged<V>(s: Seq<V>, t: Seq<V>, leq: spec_fn(V, V) -> bool) -> Seq<V>
    decreases s.len() + t.len(),
{
    if t.len() == 0 {
        s
    } else if s.len() == 0 {
        t
    } else if leq(s.last(), t.last()) {
        merged(s, t.drop_last(), leq).push(t.last())
    } else {
        merged(s.drop_last(), t, leq).push(s.last())
    }
}

/// An item that is put into the second list is put into both.
proof fn inserted_in_merged<T: DeepView, O: Order<T>>(s: Seq<T::V>, t: Seq<T::V>, x: T::V)
    ensures
        inserted(merged(s, t, order_of::<T, O>()), x, order_of::<T, O>()) == merged(
            s,
            inserted(t, x, order_of::<T, O>()),
            order_of::<T, O>(),
        ),
    decreases s.len() + t.len(),
{
    let leq = order_of::<T, O>();
    let both = merged(s, t, leq);
    if s.len() == 0 {
        assert(inserted(t, x, leq).len() > 0);
        assert(both =~= t);
    } else if t.len() == 0 {
        assert(seq![x].drop_last() =~= t);
        if !leq(s.last(), x) {
            inserted_in_merged::<T, O>(s.drop_last(), t, x);
        }
    } else if leq(s.last(), t.last()) {
        let front = t.drop_last();
        assert(both.drop_last() =~= merged(s, front, leq));
        if leq(t.last(), x) {
            O::transitive(s.last(), t.last(), x);
            assert(t.push(x).drop_last() =~= t);
        } else {
            inserted_in_merged::<T, O>(s, front, x);
            assert(inserted(front, x, leq).push(t.last()).drop_last() =~= inserted(front, x, leq));
        }
    } else {
        let front = s.drop_last();
        assert(both.drop_last() =~= merged(front, t, leq));
        O::total(s.last(), t.last());
        if leq(s.last(), x) {
            O::transitive(t.last(), s.last(), x);
            assert(t.push(x).drop_last() =~= t);
        } else {
            inserted_in_merged::<T, O>(front, t, x);
            if leq(t.last(), x) {
                assert(inserted(t, x, leq).last() == x);
            } else {
                assert(inserted(t, x, leq).last() == t.last());
            }
        }
    }
}

/// Sorting the halves and merging them is sorting.
proof fn sorted_by_halves<T: DeepView, O: Order<T>>(s: Seq<T::V>, t: Seq<T::V>)
    ensures
        sorted(s + t, order_of::<T, O>()) == merged(
            sorted(s, order_of::<T, O>()),
            sorted(t, order_of::<T, O>()),
            order_of::<T, O>(),
        ),
    decreases t.len(),
{
    let leq = order_of::<T, O>();
    if t.len() == 0 {
        assert(s + t =~= s);
    } else {
        let front = t.drop_last();
        sorted_by_halves::<T, O>(s, front);
        assert((s + t).drop_last() =~= s + front);
        assert((s + t).last() == t.last());
        inserted_in_merged::<T, O>(sorted(s, leq), sorted(front, leq), t.last());
    }
}

/// Merges two lists.
fn merge<T: DeepView, O: Order<T>>(left: Vec<T>, right: Vec<T>) -> (out: Vec<T>)
    ensures
        out.deep_view() == merged(left.deep_view(), right.deep_view(), order_of::<T, O>()),
{
    let ghost leq = order_of::<T, O>();
    let ghost whole = merged(left.deep_view(), right.deep_view(), leq);
    let mut left: Vec<T> = left;
    let mut right: Vec<T> = right;
    let mut back: Vec<T> = Vec::new();
    assert(whole =~= merged(left.deep_view(), right.deep_view(), leq) + back.deep_view().reverse());
    while left.len() > 0 || right.len() > 0
        invariant
            leq == order_of::<T, O>(),
            whole == merged(left.deep_view(), right.deep_view(), leq) + back.deep_view().reverse(),
        decreases left.len() + right.len(),
    {
        let ghost s = left.deep_view();
        let ghost t = right.deep_view();
        let ghost before = back.deep_view();
        let take_right: bool = right.len() > 0 && (left.len() == 0 || O::at_or_before(
            &left[left.len() - 1],
            &right[right.len() - 1],
        ));
        let popped: Option<T> = if take_right {
            right.pop()
        } else {
            left.pop()
        };
        if let Some(item) = popped {
            let ghost x = item.deep_view();
            proof {
                if take_right {
                    assert(x == t.last());
                    assert(right.deep_view() =~= t.drop_last());
                } else {
                    assert(x == s.last());
                    assert(left.deep_view() =~= s.drop_last());
                }
            }
            back.push(item);
            proof {
                assert(back.deep_view() =~= before.push(x));
                let rest = merged(left.deep_view(), right.deep_view(), leq);
                assert(merged(s, t, leq) =~= rest.push(x));
                assert(rest.push(x) + before.reverse() =~= rest + before.push(x).reverse());
            }
        }
    }
    let mut out: Vec<T> = Vec::new();
    assert(whole =~= out.deep_view() + back.deep_view().reverse());
    while back.len() > 0
        invariant
            whole == out.deep_view() + back.deep_view().reverse(),
        decreases back.len(),
    {
        let ghost before = out.deep_view();
        let ghost rest = back.deep_view();
        if let Some(item) = back.pop() {
            let ghost x = item.deep_view();
            out.push(item);
            proof {
                assert(rest =~= back.deep_view().push(x));
                assert(out.deep_view() =~= before.push(x));
                assert(before + rest.reverse() =~= before.push(x) + back.deep_view().reverse());
            }
        }
    }
    assert(whole =~= out.deep_view());
    out
}

/// Sorts `items` by the order `O`, stably.
pub fn stable_sort<T: DeepView, O: Order<T>>(items: Vec<T>) -> (out: Vec<T>)
    ensures
        out.deep_view() == sorted(items.deep_view(), order_of::<T, O>()),
    decreases items.len(),
{
    let ghost input = items.deep_view();
    if items.len() <= 1 {
        proof {
            if items.len() == 1 {
                assert(input.drop_last() =~= Seq::empty());
                assert(sorted(input.drop_last(), order_of::<T, O>()) =~= Seq::empty());
            }
            assert(sorted(input, order_of::<T, O>()) =~= input);
        }
        return items;
    }
    let mut left: Vec<T> = items;
    let middle: usize = left.len() / 2;
    let right: Vec<T> = left.split_off(middle);
    proof {
        assert(input =~= left.deep_view() + right.deep_view());
        sorted_by_halves::<T, O>(left.deep_view(), right.deep_view());
    }
    merge::<T, O>(stable_sort::<T, O>(left), stable_sort::<T, O>(right))
}

// ---------------------------------------------------------------------------
// Laws
// ---------------------------------------------------------------------------

/// Which items stand at the same place in the order `O` as `v`.
pub open spec fn level_with<T: DeepView, O: Order<T>>(v: T::V) -> spec_fn(T::V) -> bool {
    |y: T::V| O::leq(y, v) && O::leq(v, y)
}

proof fn inserted_members<V>(s: Seq<V>, x: V, leq: spec_fn(V, V) -> bool)
    ensures
        inserted(s, x, leq).len() == s.len() + 1,
        inserted(s, x, leq).to_multiset() == s.to_multiset().insert(x),
        forall|i: int|
            0 <= i < inserted(s, x, leq).len() ==> #[trigger] inserted(s, x, leq)[i] == x
                || s.contains(inserted(s, x, leq)[i]),
    decreases s.len(),
{
    broadcast use vstd::seq_lib::group_to_multiset_ensures;

    if s.len() == 0 {
        assert(s.push(x) =~= seq![x]);
    } else if leq(s.last(), x) {
    } else {
        inserted_members(s.drop_last(), x, leq);
        let inner = inserted(s.drop_last(), x, leq);
        assert(s =~= s.drop_last().push(s.last()));
        assert forall|i: int| 0 <= i < inner.push(s.last()).len() implies #[trigger] inner.push(
            s.last(),
        )[i] == x || s.contains(inner.push(s.last())[i]) by {
            if i < inner.len() {
                assert(inner.push(s.last())[i] == inner[i]);
                if inner[i] != x {
                    let k = choose|k: int| 0 <= k < s.drop_last().len() && s.drop_last()[k] == inner[i];
                    assert(s[k] == inner[i]);
                }
            } else {
                assert(s[s.len() - 1] == s.last());
            }
        }
        assert(inner.push(s.last()).to_multiset() =~= s.to_multiset().insert(x));
    }
}

proof fn inserted_ascending<T: DeepView, O: Order<T>>(s: Seq<T::V>, x: T::V)
    requires
        ascending(s, order_of::<T, O>()),
    ensures
        ascending(inserted(s, x, order_of::<T, O>()), order_of::<T, O>()),
    decreases s.len(),
{
    let leq = order_of::<T, O>();
    if s.len() == 0 {
    } else if leq(s.last(), x) {
        let r = s.push(x);
        assert forall|i: int, j: int| 0 <= i < j < r.len() implies #[trigger] leq(r[i], r[j]) by {
            if j < s.len() {
                assert(leq(s[i], s[j]));
            } else if i < s.len() - 1 {
                assert(leq(s[i], s[s.len() - 1]));
                O::transitive(s[i], s.last(), x);
            }
        }
    } else {
        let front = s.drop_last();
        assert(ascending(front, leq)) by {
            assert forall|i: int, j: int| 0 <= i < j < front.len() implies #[trigger] leq(
                front[i],
                front[j],
            ) by {
                assert(leq(s[i], s[j]));
            }
        }
        inserted_ascending::<T, O>(front, x);
        inserted_members(front, x, leq);
        let inner = inserted(front, x, leq);
        let r = inner.push(s.last());
        O::total(s.last(), x);
        assert forall|i: int, j: int| 0 <= i < j < r.len() implies #[trigger] leq(r[i], r[j]) by {
            if j < inner.len() {
                assert(leq(inner[i], inner[j]));
            } else if inner[i] != x {
                let k = choose|k: int| 0 <= k < front.len() && front[k] == inner[i];
                assert(leq(s[k], s[s.len() - 1]));
            }
        }
    }
}

/// Sorting puts the items in ascending order.
pub proof fn sorted_is_ascending<T: DeepView, O: Order<T>>(s: Seq<T::V>)
    ensures
        ascending(sorted(s, order_of::<T, O>()), order_of::<T, O>()),
    decreases s.len(),
{
    if s.len() > 0 {
        sorted_is_ascending::<T, O>(s.drop_last());
        inserted_ascending::<T, O>(sorted(s.drop_last(), order_of::<T, O>()), s.last());
    }
}

/// Sorting neither adds an item nor loses one.
pub proof fn sorted_keeps_items<V>(s: Seq<V>, leq: spec_fn(V, V) -> bool)
    ensures
        sorted(s, leq).to_multiset() == s.to_multiset(),
        sorted(s, leq).len() == s.len(),
    decreases s.len(),
{
    broadcast use vstd::seq_lib::group_to_multiset_ensures;

    if s.len() > 0 {
        sorted_keeps_items(s.drop_last(), leq);
        inserted_members(sorted(s.drop_last(), leq), s.last(), leq);
        assert(s =~= s.drop_last().push(s.last()));
    } else {
        assert(sorted(s, leq) =~= s);
    }
}

/// Sorting keeps which items occur.
pub proof fn sorted_contains<V>(s: Seq<V>, leq: spec_fn(V, V) -> bool, x: V)
    ensures
        sorted(s, leq).contains(x) == s.contains(x),
{
    broadcast use vstd::seq_lib::group_to_multiset_ensures;

    sorted_keeps_items(s, leq);
    assert(s.to_multiset().count(x) > 0 <==> s.contains(x));
    assert(sorted(s, leq).to_multiset().count(x) > 0 <==> sorted(s, leq).contains(x));
}

proof fn inserted_level<T: DeepView, O: Order<T>>(s: Seq<T::V>, x: T::V, v: T::V)
    ensures
        inserted(s, x, order_of::<T, O>()).filter(level_with::<T, O>(v)) == s.push(
            x,
        ).filter(level_with::<T, O>(v)),
    decreases s.len(),
{
    reveal(Seq::filter);
    let leq = order_of::<T, O>();
    let same = level_with::<T, O>(v);
    assert(s.push(x).drop_last() =~= s);
    if s.len() == 0 {
        assert(seq![x] =~= s.push(x));
    } else if !leq(s.last(), x) {
        let front = s.drop_last();
        inserted_level::<T, O>(front, x, v);
        let inner = inserted(front, x, leq);
        assert(inner.push(s.last()).drop_last() =~= inner);
        assert(front.push(x).drop_last() =~= front);
        assert(s.filter(same) == if same(s.last()) {
            front.filter(same).push(s.last())
        } else {
            front.filter(same)
        });
        assert(front.push(x).filter(same) == if same(x) {
            front.filter(same).push(x)
        } else {
            front.filter(same)
        });
        assert(s.push(x).filter(same) == if same(x) {
            s.filter(same).push(x)
        } else {
            s.filter(same)
        });
        if same(x) && same(s.last()) {
            O::transitive(s.last(), v, x);
        }
    }
}

/// Sorting is stable: items that stand at the same place in the order keep their positions
/// relative to one another.
pub proof fn sorted_is_stable<T: DeepView, O: Order<T>>(s: Seq<T::V>, v: T::V)
    ensures
        sorted(s, order_of::<T, O>()).filter(level_with::<T, O>(v)) == s.filter(level_with::<T, O>(v)),
    decreases s.len(),
{
    reveal(Seq::filter);
    let leq = order_of::<T, O>();
    if s.len() > 0 {
        let front = s.drop_last();
        sorted_is_stable::<T, O>(front, v);
        inserted_level::<T, O>(sorted(front, leq), s.last(), v);
        assert(sorted(front, leq).push(s.last()).drop_last() =~= sorted(front, leq));
    } else {
        assert(sorted(s, leq) =~= s);
    }
}

proof fn inserted_of_map<V, W>(
    s: Seq<V>,
    x: V,
    f: spec_fn(V) -> W,
    leq: spec_fn(V, V) -> bool,
    mapped_leq: spec_fn(W, W) -> bool,
)
    requires
        forall|a: V, b: V| #[trigger] mapped_leq(f(a), f(b)) == leq(a, b),
    ensures
        inserted(s.map_values(f), f(x), mapped_leq) == inserted(s, x, leq).map_values(f),
    decreases s.len(),
{
    let t = s.map_values(f);
    if s.len() == 0 {
        assert(inserted(t, f(x), mapped_leq) =~= inserted(s, x, leq).map_values(f));
    } else {
        assert(t.last() == f(s.last()));
        assert(mapped_leq(f(s.last()), f(x)) == leq(s.last(), x));
        assert(t.drop_last() =~= s.drop_last().map_values(f));
        inserted_of_map(s.drop_last(), x, f, leq, mapped_leq);
        assert(inserted(t, f(x), mapped_leq) =~= inserted(s, x, leq).map_values(f));
    }
}

/// Sorting commutes with a change of the items that keeps their order.
pub proof fn sorted_of_map<V, W>(
    s: Seq<V>,
    f: spec_fn(V) -> W,
    leq: spec_fn(V, V) -> bool,
    mapped_leq: spec_fn(W, W) -> bool,
)
    requires
        forall|a: V, b: V| #[trigger] mapped_leq(f(a), f(b)) == leq(a, b),
    ensures
        sorted(s.map_values(f), mapped_leq) == sorted(s, leq).map_values(f),
    decreases s.len(),
{
    if s.len() == 0 {
        assert(sorted(s.map_values(f), mapped_leq) =~= sorted(s, leq).map_values(f));
    } else {
        assert(s.map_values(f).drop_last() =~= s.drop_last().map_values(f));
        sorted_of_map(s.drop_last(), f, leq, mapped_leq);
        inserted_of_map(sorted(s.drop_last(), leq), s.last(), f, leq, mapped_leq);
    }
}

/// Whether no two different items of `s` stand at the same place in the order `leq`.
pub open spec fn apart<V>(s: Seq<V>, leq: spec_fn(V, V) -> bool) -> bool {
    forall|a: V, b: V|
        s.contains(a) && s.contains(b) && #[trigger] leq(a, b) && leq(b, a) ==> a == b
}

/// Items that the order tells apart stand in ascending order in one way only.
pub proof fn ascending_is_unique<V>(s: Seq<V>, t: Seq<V>, leq: spec_fn(V, V) -> bool)
    requires
        ascending(s, leq),
        ascending(t, leq),
        apart(s, leq),
        s.to_multiset() == t.to_multiset(),
    ensures
        s == t,
    decreases s.len(),
{
    broadcast use vstd::seq_lib::group_to_multiset_ensures;

    assert(s.len() == s.to_multiset().len() && t.len() == t.to_multiset().len());
    if s.len() > 0 {
        let x = s.last();
        let y = t.last();
        assert(s[s.len() - 1] == x && t[t.len() - 1] == y);
        assert(s.contains(x) && t.contains(y));
        assert(s.to_multiset().count(x) > 0 && t.to_multiset().count(y) > 0);
        assert(t.contains(x) && s.contains(y));
        let i = choose|i: int| 0 <= i < t.len() && t[i] == x;
        let j = choose|j: int| 0 <= j < s.len() && s[j] == y;
        if i < t.len() - 1 && j < s.len() - 1 {
            assert(leq(t[i], t[t.len() - 1]));
            assert(leq(s[j], s[s.len() - 1]));
        }
        assert(x == y);
        let front = s.drop_last();
        let rest = t.drop_last();
        assert(s =~= front.push(x) && t =~= rest.push(y));
        assert(front.to_multiset() =~= rest.to_multiset()) by {
            assert forall|v: V| #[trigger] front.to_multiset().count(v) == rest.to_multiset().count(v) by {
                assert(front.push(x).to_multiset().count(v) == front.to_multiset().insert(x).count(v));
                assert(rest.push(y).to_multiset().count(v) == rest.to_multiset().insert(y).count(v));
            }
        }
        assert forall|i: int, j: int| 0 <= i < j < front.len() implies #[trigger] leq(
            front[i],
            front[j],
        ) by {
            assert(leq(s[i], s[j]));
        }
        assert forall|i: int, j: int| 0 <= i < j < rest.len() implies #[trigger] leq(
            rest[i],
            rest[j],
        ) by {
            assert(leq(t[i], t[j]));
        }
        assert forall|a: V, b: V|
            front.contains(a) && front.contains(b) && #[trigger] leq(a, b) && leq(b, a) implies a
            == b by {
            let i = choose|i: int| 0 <= i < front.len() && front[i] == a;
            let j = choose|j: int| 0 <= j < front.len() && front[j] == b;
            assert(s[i] == a && s[j] == b);
        }
        ascending_is_unique(front, rest, leq);
    } else {
        assert(s =~= t);
    }
}

/// Where the order tells all different items apart, sorting forgets the order in which they were
/// given.
pub proof fn sorted_of_permutation<T: DeepView, O: Order<T>>(s: Seq<T::V>, t: Seq<T::V>)
    requires
        s.to_multiset() == t.to_multiset(),
        apart(s, order_of::<T, O>()),
    ensures
        sorted(s, order_of::<T, O>()) == sorted(t, order_of::<T, O>()),
{
    let leq = order_of::<T, O>();
    sorted_is_ascending::<T, O>(s);
    sorted_is_ascending::<T, O>(t);
    sorted_keeps_items(s, leq);
    sorted_keeps_items(t, leq);
    assert forall|a: T::V, b: T::V|
        sorted(s, leq).contains(a) && sorted(s, leq).contains(b) && #[trigger] leq(a, b) && leq(
            b,
            a,
        ) implies a == b by {
        sorted_contains(s, leq, a);
        sorted_contains(s, leq, b);
    }
    ascending_is_unique(sorted(s, leq), sorted(t, leq), leq);
}

proof fn sum_of_inserted<V>(s: Seq<V>, x: V, leq: spec_fn(V, V) -> bool, f: spec_fn(V) -> nat)
    ensures
        lists::sum_by(inserted(s, x, leq), f) == lists::sum_by(s, f) + f(x),
    decreases s.len(),
{
    if s.len() == 0 {
        assert(seq![x].drop_last() =~= s);
    } else if leq(s.last(), x) {
        assert(s.push(x).drop_last() =~= s);
    } else {
        sum_of_inserted(s.drop_last(), x, leq, f);
        let inner = inserted(s.drop_last(), x, leq);
        assert(inner.push(s.last()).drop_last() =~= inner);
    }
}

/// Sorting changes no sum.
pub proof fn sum_of_sorted<V>(s: Seq<V>, leq: spec_fn(V, V) -> bool, f: spec_fn(V) -> nat)
    ensures
        lists::sum_by(sorted(s, leq), f) == lists::sum_by(s, f),
    decreases s.len(),
{
    if s.len() > 0 {
        sum_of_sorted(s.drop_last(), leq, f);
        sum_of_inserted(sorted(s.drop_last(), leq), s.last(), leq, f);
    }
}

} // verus!
