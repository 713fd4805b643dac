//! How often names occur.

use crate::lists;
use crate::order;
use crate::order::Order;
use crate::text;
use crate::text::{same_text, text_at_or_before};
use vstd::prelude::*;

verus! {

/// How often `x` occurs in `s`.
pub open spec fn occurrences<V>(s: Seq<V>, x: V) -> nat
    decreases s.len(),
{
    if s.len() == 0 {
        0
    } else {
        occurrences(s.drop_last(), x) + if s.last() == x {
            1nat
        } else {
            0
        }
    }
}

/// The different items of `s`, in the order in which they first occur.
pub open spec fn distinct<V>(s: Seq<V>) -> Seq<V>
    decreases s.len(),
{
    if s.len() == 0 {
        s
    } else if s.drop_last().contains(s.last()) {
        distinct(s.drop_last())
    } else {
        distinct(s.drop_last()).push(s.last())
    }
}

/// Each different name of `names`, in the order in which they first occur, with the number of
/// times it occurs.
pub open spec fn tally(names: Seq<Seq<char>>) -> Seq<(Seq<char>, nat)> {
    distinct(names).map_values(|name: Seq<char>| (name, occurrences(names, name)))
}

/// A name and how often it occurred.
pub struct Count {
    pub name: String,
    pub count: u32,
}

impl DeepView for Count {
    type V = (Seq<char>, nat);

    open spec fn deep_view(&self) -> (Seq<char>, nat) {
        (self.name@, self.count as nat)
    }
}

/// Names and how often each of them occurred.
pub struct CountTable {
    pub entries: Vec<Count>,
}

impl DeepView for CountTable {
    type V = Seq<(Seq<char>, nat)>;

    open spec fn deep_view(&self) -> Seq<(Seq<char>, nat)> {
        self.entries.deep_view()
    }
}

/// Whether `table` has an entry for `name`.
pub open spec fn lists(table: Seq<(Seq<char>, nat)>, name: Seq<char>) -> bool {
    exists|i: int| 0 <= i < table.len() && (#[trigger] table[i]).0 == name
}

/// Whether no two entries of `table` have the same name.
pub open spec fn one_entry_each(table: Seq<(Seq<char>, nat)>) -> bool {
    forall|i: int, j: int|
        0 <= i < j < table.len() ==> (#[trigger] table[i]).0 != (#[trigger] table[j]).0
}

impl CountTable {
    /// A table without entries.
    pub fn new() -> (table: CountTable)
        ensures
            table.deep_view() == tally(Seq::empty()),
    {
        let table = CountTable { entries: Vec::new() };
        assert(table.deep_view() =~= tally(Seq::empty()));
        table
    }

    /// Where the entry for `name` stands.
    fn position(&self, name: &str) -> (at: Option<usize>)
        ensures
            match at {
                Some(i) => i < self.entries.len() && self.deep_view()[i as int].0 == name@ && forall|
                    k: int,
                |
                    0 <= k < i ==> (#[trigger] self.deep_view()[k]).0 != name@,
                None => !lists(self.deep_view(), name@),
            },
    {
        let mut i: usize = 0;
        while i < self.entries.len()
            invariant
                i <= self.entries.len(),
                forall|k: int| 0 <= k < i ==> (#[trigger] self.deep_view()[k]).0 != name@,
            decreases self.entries.len() - i,
        {
            if same_text(self.entries[i].name.as_str(), name) {
                return Some(i);
            }
            i = i + 1;
        }
        None
    }

    /// The count of the first entry for `name`; `None` where the table has none.
    pub fn get(&self, name: &str) -> (count: Option<u32>)
        ensures
            count is Some <==> lists(self.deep_view(), name@),
            count matches Some(n) ==> exists|i: int|
                0 <= i < self.deep_view().len() && #[trigger] self.deep_view()[i] == (
                    name@,
                    n as nat,
                ) && forall|k: int| 0 <= k < i ==> (#[trigger] self.deep_view()[k]).0 != name@,
    {
        match self.position(name) {
            Some(i) => {
                assert(self.deep_view()[i as int] == (name@, self.entries[i as int].count as nat));
                Some(self.entries[i].count)
            },
            None => None,
        }
    }

    /// Counts one more occurrence of `name`.
    fn record(&mut self, name: &str, Ghost(names): Ghost<Seq<Seq<char>>>)
        requires
            old(self).deep_view() == tally(names),
            occurrences(names, name@) < u32::MAX,
        ensures
            final(self).deep_view() == tally(names.push(name@)),
    {
        let ghost before = self.deep_view();
        let ghost after = names.push(name@);
        proof {
            assert(after.drop_last() =~= names);
            distinct_members(names, name@);
            tally_lists(names, name@);
            assert forall|x: Seq<char>| x != name@ implies #[trigger] occurrences(after, x)
                == occurrences(names, x) by {}
        }
        match self.position(name) {
            Some(i) => {
                let count: u32 = self.entries[i].count;
                proof {
                    assert(before[i as int] == (name@, occurrences(names, name@)));
                    distinct_unique(names);
                }
                let raised = Count { name: name.to_owned(), count: count + 1 };
                self.entries.set(i, raised);
                proof {
                    assert(distinct(after) == distinct(names));
                    assert forall|k: int| 0 <= k < before.len() implies #[trigger] self.deep_view()[k]
                        == tally(after)[k] by {
                        assert(before[k] == tally(names)[k]);
                        if k != i {
                            assert(distinct(names)[k] != distinct(names)[i as int]);
                        }
                    }
                    assert(self.deep_view() =~= tally(after));
                }
            },
            None => {
                self.entries.push(Count { name: name.to_owned(), count: 1 });
                proof {
                    occurrences_zero(names, name@);
                    assert forall|k: int| 0 <= k < before.len() implies #[trigger] self.deep_view()[k]
                        == tally(after)[k] by {
                        assert(before[k] == tally(names)[k]);
                        distinct_members(names, distinct(names)[k]);
                        assert(distinct(names).contains(distinct(names)[k]));
                    }
                    assert(self.deep_view() =~= tally(after));
                }
            },
        }
    }
}

// ---------------------------------------------------------------------------
// Laws
// ---------------------------------------------------------------------------

/// The different items of a list are the items of the list.
pub proof fn distinct_members<V>(s: Seq<V>, x: V)
    ensures
        distinct(s).contains(x) == s.contains(x),
    decreases s.len(),
{
    if s.len() > 0 {
        let front = s.drop_last();
        distinct_members(front, x);
        assert(s.contains(x) <==> front.contains(x) || s.last() == x) by {
            if s.contains(x) {
                let k = choose|k: int| 0 <= k < s.len() && s[k] == x;
                if k < front.len() {
                    assert(front[k] == x);
                }
            }
            if front.contains(x) {
                let k = choose|k: int| 0 <= k < front.len() && front[k] == x;
                assert(s[k] == x);
            }
            if s.last() == x {
                assert(s[s.len() - 1] == x);
            }
        }
        if !front.contains(s.last()) {
            let r = distinct(front);
            if r.contains(x) {
                let k = choose|k: int| 0 <= k < r.len() && r[k] == x;
                assert(r.push(s.last())[k] == x);
            }
            if s.last() == x {
                assert(r.push(s.last())[r.len() as int] == x);
            }
            if r.push(s.last()).contains(x) {
                let k = choose|k: int| 0 <= k < r.push(s.last()).len() && r.push(s.last())[k] == x;
                if k < r.len() {
                    assert(r[k] == x);
                }
            }
        }
    }
}

/// No item stands twice among the different items of a list.
pub proof fn distinct_unique<V>(s: Seq<V>)
    ensures
        distinct(s).no_duplicates(),
    decreases s.len(),
{
    if s.len() > 0 {
        let front = s.drop_last();
        distinct_unique(front);
        distinct_members(front, s.last());
        if !front.contains(s.last()) {
            let r = distinct(front);
            assert forall|i: int, j: int|
                0 <= i < r.push(s.last()).len() && 0 <= j < r.push(s.last()).len() && i != j implies r.push(
                s.last(),
            )[i] != r.push(s.last())[j] by {
                assert(forall|k: int| 0 <= k < r.len() ==> r.contains(#[trigger] r[k]));
            }
        }
    }
}

/// What does not occur in a list occurs in it zero times.
pub proof fn occurrences_zero<V>(s: Seq<V>, x: V)
    ensures
        occurrences(s, x) == 0 <==> !s.contains(x),
    decreases s.len(),
{
    if s.len() > 0 {
        let front = s.drop_last();
        occurrences_zero(front, x);
        if front.contains(x) {
            let k = choose|k: int| 0 <= k < front.len() && front[k] == x;
            assert(s[k] == x);
        }
        if s.last() == x {
            assert(s[s.len() - 1] == x);
        }
        if s.contains(x) && s.last() != x {
            let k = choose|k: int| 0 <= k < s.len() && s[k] == x;
            assert(front[k] == x);
        }
    }
}

/// No item occurs more often than there are items.
pub proof fn occurrences_at_most_len<V>(s: Seq<V>, x: V)
    ensures
        occurrences(s, x) <= s.len(),
    decreases s.len(),
{
    if s.len() > 0 {
        occurrences_at_most_len(s.drop_last(), x);
    }
}

/// Dropping items at the end makes no item occur more often.
pub proof fn occurrences_of_prefix<V>(s: Seq<V>, n: int, x: V)
    requires
        0 <= n <= s.len(),
    ensures
        occurrences(s.take(n), x) <= occurrences(s, x),
    decreases s.len(),
{
    if n < s.len() {
        occurrences_of_prefix(s.drop_last(), n, x);
        assert(s.drop_last().take(n) =~= s.take(n));
    } else {
        assert(s.take(n) =~= s);
    }
}

/// Items occur in two lists together as often as in each of the two.
pub proof fn occurrences_of_sum<V>(a: Seq<V>, b: Seq<V>, x: V)
    ensures
        occurrences(a + b, x) == occurrences(a, x) + occurrences(b, x),
    decreases b.len(),
{
    if b.len() == 0 {
        assert(a + b =~= a);
    } else {
        occurrences_of_sum(a, b.drop_last(), x);
        assert((a + b).drop_last() =~= a + b.drop_last());
        assert((a + b).last() == b.last());
    }
}

/// An item occurs in a concatenation as often as in each of its lists.
pub proof fn occurrences_of_flat<U, V>(s: Seq<U>, f: spec_fn(U) -> Seq<V>, x: V)
    ensures
        occurrences(lists::flat_by(s, f), x) == lists::sum_by(s, |u: U| occurrences(f(u), x)),
    decreases s.len(),
{
    if s.len() > 0 {
        occurrences_of_flat(s.drop_last(), f, x);
        occurrences_of_sum(lists::flat_by(s.drop_last(), f), f(s.last()), x);
    }
}

/// A tally has an entry for a name exactly where the name occurs, and its counts add up to
/// nothing else: the entry of a name holds how often it occurs.
pub proof fn tally_lists(names: Seq<Seq<char>>, name: Seq<char>)
    ensures
        lists(tally(names), name) <==> names.contains(name),
        forall|i: int|
            0 <= i < tally(names).len() && (#[trigger] tally(names)[i]).0 == name ==> tally(names)[i].1
                == occurrences(names, name),
{
    distinct_members(names, name);
    if names.contains(name) {
        let k = choose|k: int| 0 <= k < distinct(names).len() && distinct(names)[k] == name;
        assert(tally(names)[k].0 == name);
    }
    if lists(tally(names), name) {
        let i = choose|i: int| 0 <= i < tally(names).len() && (#[trigger] tally(names)[i]).0 == name;
        assert(distinct(names)[i] == name);
    }
}

proof fn occurrences_add_up<V>(s: Seq<V>, d: Seq<V>)
    requires
        d.no_duplicates(),
        forall|i: int| 0 <= i < s.len() ==> d.contains(#[trigger] s[i]),
    ensures
        lists::sum_by(d, |x: V| occurrences(s, x)) == s.len(),
    decreases s.len(),
{
    let h = |x: V| occurrences(s, x);
    if s.len() == 0 {
        lists::sum_by_of_zero(d, h);
    } else {
        let front = s.drop_last();
        let f = |x: V| occurrences(front, x);
        let g = |x: V|
            if s.last() == x {
                1nat
            } else {
                0
            };
        assert forall|i: int| 0 <= i < front.len() implies d.contains(#[trigger] front[i]) by {
            assert(front[i] == s[i]);
        }
        occurrences_add_up(front, d);
        assert(d.contains(s[s.len() - 1]));
        lists::sum_by_of_one(d, s.last(), g);
        lists::sum_by_of_sum(d, f, g, h);
    }
}

/// The counts of a tally add up to the number of names.
pub proof fn tally_adds_up(names: Seq<Seq<char>>)
    ensures
        lists::sum_by(tally(names), |e: (Seq<char>, nat)| e.1) == names.len(),
{
    let d = distinct(names);
    distinct_unique(names);
    assert forall|i: int| 0 <= i < names.len() implies d.contains(#[trigger] names[i]) by {
        distinct_members(names, names[i]);
    }
    occurrences_add_up(names, d);
    lists::sum_by_of_map(
        d,
        |name: Seq<char>| (name, occurrences(names, name)),
        |e: (Seq<char>, nat)| e.1,
        |x: Seq<char>| occurrences(names, x),
    );
}

/// A tally has one entry for each name.
pub proof fn tally_is_unique(names: Seq<Seq<char>>)
    ensures
        one_entry_each(tally(names)),
{
    distinct_unique(names);
}

// ---------------------------------------------------------------------------
// Lists of names
// ---------------------------------------------------------------------------

/// How often `name` occurs in `names`.
pub fn count_name(names: &Vec<String>, name: &str) -> (count: usize)
    ensures
        count == occurrences(names.deep_view(), name@),
{
    let ghost all = names.deep_view();
    let mut count: usize = 0;
    let mut i: usize = 0;
    while i < names.len()
        invariant
            i <= names.len(),
            all == names.deep_view(),
            count <= i,
            count == occurrences(all.take(i as int), name@),
        decreases names.len() - i,
    {
        proof {
            assert(all.take(i + 1).drop_last() =~= all.take(i as int));
            assert(all[i as int] == names[i as int]@);
        }
        if same_text(names[i].as_str(), name) {
            count = count + 1;
        }
        i = i + 1;
    }
    assert(all.take(i as int) =~= all);
    count
}

/// The different names of `names`, in the order in which they first occur.
pub fn distinct_names(names: &Vec<String>) -> (out: Vec<String>)
    ensures
        out.deep_view() == distinct(names.deep_view()),
{
    let ghost all = names.deep_view();
    let mut out: Vec<String> = Vec::new();
    let mut i: usize = 0;
    assert(out.deep_view() =~= distinct(all.take(0)));
    while i < names.len()
        invariant
            i <= names.len(),
            all == names.deep_view(),
            out.deep_view() == distinct(all.take(i as int)),
        decreases names.len() - i,
    {
        let ghost before = out.deep_view();
        let name: &str = names[i].as_str();
        let known: usize = count_name(&out, name);
        proof {
            assert(all.take(i + 1).drop_last() =~= all.take(i as int));
            assert(all.take(i + 1).last() == name@);
            occurrences_zero(before, name@);
            distinct_members(all.take(i as int), name@);
        }
        if known == 0 {
            out.push(name.to_owned());
            assert(out.deep_view() =~= before.push(name@));
        }
        i = i + 1;
    }
    assert(all.take(i as int) =~= all);
    out
}

/// Whether no name of `names` occurs more often than a count can hold.
pub open spec fn countable(names: Seq<Seq<char>>) -> bool {
    forall|name: Seq<char>| #[trigger] occurrences(names, name) <= u32::MAX
}

/// Counts how often each name occurs.
pub fn tally_names(names: &Vec<String>) -> (table: CountTable)
    requires
        countable(names.deep_view()),
    ensures
        table.deep_view() == tally(names.deep_view()),
        one_entry_each(table.deep_view()),
{
    proof {
        tally_is_unique(names.deep_view());
    }
    let ghost none = Seq::<Seq<char>>::empty();
    let mut table: CountTable = CountTable::new();
    assert(none + names.deep_view() =~= names.deep_view());
    record_all(&mut table, names, Ghost(none));
    table
}

/// Counts the names of `names` on top of those that `table` has counted.
pub(crate) fn record_all(
    table: &mut CountTable,
    names: &Vec<String>,
    Ghost(seen): Ghost<Seq<Seq<char>>>,
)
    requires
        old(table).deep_view() == tally(seen),
        countable(seen + names.deep_view()),
    ensures
        final(table).deep_view() == tally(seen + names.deep_view()),
{
    let ghost all = names.deep_view();
    let mut i: usize = 0;
    assert(seen + all.take(0) =~= seen);
    while i < names.len()
        invariant
            i <= names.len(),
            all == names.deep_view(),
            countable(seen + all),
            table.deep_view() == tally(seen + all.take(i as int)),
        decreases names.len() - i,
    {
        let ghost so_far = seen + all.take(i as int);
        let name: &str = names[i].as_str();
        proof {
            assert(name@ == all[i as int]);
            let next = seen + all.take(i + 1);
            assert(so_far.push(name@) =~= next);
            assert(next =~= (seen + all).take(seen.len() + i + 1));
            occurrences_of_prefix(seen + all, seen.len() + i + 1, name@);
            assert(next.drop_last() =~= so_far);
        }
        table.record(name, Ghost(so_far));
        i = i + 1;
    }
    assert(all.take(i as int) =~= all);
}

// ---------------------------------------------------------------------------
// Ranking
// ---------------------------------------------------------------------------

/// Counts from the greatest down; names with equal counts in dictionary order.
pub struct ByCount;

impl Order<Count> for ByCount {
    open spec fn leq(a: (Seq<char>, nat), b: (Seq<char>, nat)) -> bool {
        a.1 > b.1 || (a.1 == b.1 && text::text_leq(a.0, b.0))
    }

    fn at_or_before(a: &Count, b: &Count) -> (answer: bool) {
        a.count > b.count || (a.count == b.count && text_at_or_before(
            a.name.as_str(),
            b.name.as_str(),
        ))
    }

    proof fn total(a: (Seq<char>, nat), b: (Seq<char>, nat)) {
        text::text_leq_total(a.0, b.0);
    }

    proof fn transitive(a: (Seq<char>, nat), b: (Seq<char>, nat), c: (Seq<char>, nat)) {
        if a.1 == b.1 && b.1 == c.1 {
            text::text_leq_transitive(a.0, b.0, c.0);
        }
    }
}

/// The entries of `table` from the greatest count down.
pub open spec fn ranked(table: Seq<(Seq<char>, nat)>) -> Seq<(Seq<char>, nat)> {
    order::sorted(table, order::order_of::<Count, ByCount>())
}

/// Where no two entries have the same name, entries with equal counts stand in strict dictionary
/// order of their names.
pub proof fn ranking_is_strict(table: Seq<(Seq<char>, nat)>, i: int, j: int)
    requires
        one_entry_each(table),
        0 <= i < j < ranked(table).len(),
    ensures
        one_entry_each(ranked(table)),
        ranked(table)[i].1 > ranked(table)[j].1 || (ranked(table)[i].1 == ranked(table)[j].1
            && text::text_leq(ranked(table)[i].0, ranked(table)[j].0) && ranked(table)[i].0
            != ranked(table)[j].0),
{
    broadcast use vstd::multiset::group_multiset_axioms;

    let leq = order::order_of::<Count, ByCount>();
    let r = ranked(table);
    order::sorted_is_ascending::<Count, ByCount>(table);
    order::sorted_keeps_items(table, leq);
    assert(leq(r[i], r[j]));
    assert(table.no_duplicates()) by {
        assert forall|a: int, b: int|
            0 <= a < table.len() && 0 <= b < table.len() && a != b implies table[a] != table[b] by {
            if a < b {
                assert(table[a].0 != table[b].0);
            } else {
                assert(table[b].0 != table[a].0);
            }
        }
    }
    table.lemma_multiset_has_no_duplicates();
    assert(forall|x: (Seq<char>, nat)|
        r.to_multiset().contains(x) ==> r.to_multiset().count(x) == 1);
    r.lemma_multiset_has_no_duplicates_conv();
    assert forall|a: int, b: int| 0 <= a < b < r.len() implies (#[trigger] r[a]).0 != (
    #[trigger] r[b]).0 by {
        assert(r[a] != r[b]);
        assert(r.contains(r[a]) && r.contains(r[b]));
        order::sorted_contains(table, leq, r[a]);
        order::sorted_contains(table, leq, r[b]);
        let c = choose|c: int| 0 <= c < table.len() && table[c] == r[a];
        let d = choose|d: int| 0 <= d < table.len() && table[d] == r[b];
        if c < d {
            assert(table[c].0 != table[d].0);
        } else {
            assert(table[d].0 != table[c].0);
        }
    }
    assert(r[i].0 != r[j].0);
}

/// Copies the entries of `table`, the greatest count first.
pub fn rank(table: &CountTable) -> (entries: Vec<Count>)
    ensures
        entries.deep_view() == ranked(table.deep_view()),
{
    let mut copy: Vec<Count> = Vec::new();
    let mut i: usize = 0;
    while i < table.entries.len()
        invariant
            i <= table.entries.len(),
            copy.deep_view() == table.deep_view().take(i as int),
        decreases table.entries.len() - i,
    {
        let entry = &table.entries[i];
        let ghost before = copy.deep_view();
        copy.push(Count { name: entry.name.clone(), count: entry.count });
        assert(copy.deep_view() =~= before.push(table.deep_view()[i as int]));
        i = i + 1;
        assert(copy.deep_view() =~= table.deep_view().take(i as int));
    }
    assert(table.deep_view().take(i as int) =~= table.deep_view());
    order::stable_sort::<Count, ByCount>(copy)
}

// ---------------------------------------------------------------------------
// Orders that do not matter
// ---------------------------------------------------------------------------

/// How often an item occurs in a list is how often its multiset has it.
pub proof fn occurrences_are_counts<V>(s: Seq<V>, x: V)
    ensures
        occurrences(s, x) == s.to_multiset().count(x),
    decreases s.len(),
{
    broadcast use vstd::seq_lib::group_to_multiset_ensures;

    if s.len() > 0 {
        occurrences_are_counts(s.drop_last(), x);
        assert(s =~= s.drop_last().push(s.last()));
    } else {
        assert(s.len() == s.to_multiset().len());
    }
}

/// Lists in which all items occur equally often have the same items.
pub proof fn same_occurrences_same_items<V>(s: Seq<V>, t: Seq<V>)
    requires
        forall|x: V| #[trigger] occurrences(s, x) == occurrences(t, x),
    ensures
        s.to_multiset() == t.to_multiset(),
{
    assert forall|x: V| #[trigger] s.to_multiset().count(x) == t.to_multiset().count(x) by {
        occurrences_are_counts(s, x);
        occurrences_are_counts(t, x);
        assert(occurrences(s, x) == occurrences(t, x));
    }
    assert(s.to_multiset() =~= t.to_multiset());
}

/// A concatenation has the same items in whatever order its lists are given.
pub proof fn flat_by_of_permutation<U, V>(s: Seq<U>, t: Seq<U>, f: spec_fn(U) -> Seq<V>)
    requires
        s.to_multiset() == t.to_multiset(),
    ensures
        lists::flat_by(s, f).to_multiset() == lists::flat_by(t, f).to_multiset(),
        forall|x: V|
            #[trigger] occurrences(lists::flat_by(s, f), x) == occurrences(lists::flat_by(t, f), x),
        forall|x: V|
            #[trigger] lists::flat_by(s, f).contains(x) <==> lists::flat_by(t, f).contains(x),
{
    assert forall|x: V|
        #[trigger] occurrences(lists::flat_by(s, f), x) == occurrences(lists::flat_by(t, f), x) by {
        occurrences_of_flat(s, f, x);
        occurrences_of_flat(t, f, x);
        lists::sum_by_of_permutation(s, t, |u: U| occurrences(f(u), x));
    }
    same_occurrences_same_items(lists::flat_by(s, f), lists::flat_by(t, f));
    assert forall|x: V|
        #[trigger] lists::flat_by(s, f).contains(x) <==> lists::flat_by(t, f).contains(x) by {
        occurrences_zero(lists::flat_by(s, f), x);
        occurrences_zero(lists::flat_by(t, f), x);
        assert(occurrences(lists::flat_by(s, f), x) == occurrences(lists::flat_by(t, f), x));
    }
}

proof fn occurrences_of_map<U, V>(s: Seq<U>, f: spec_fn(U) -> V, x: V)
    ensures
        occurrences(s.map_values(f), x) == lists::sum_by(
            s,
            |u: U|
                if f(u) == x {
                    1nat
                } else {
                    0
                },
        ),
    decreases s.len(),
{
    if s.len() > 0 {
        occurrences_of_map(s.drop_last(), f, x);
        assert(s.map_values(f).drop_last() =~= s.drop_last().map_values(f));
    }
}

/// Mapped items are the same in whatever order the items are given.
pub proof fn map_of_permutation<U, V>(s: Seq<U>, t: Seq<U>, f: spec_fn(U) -> V)
    requires
        s.to_multiset() == t.to_multiset(),
    ensures
        s.map_values(f).to_multiset() == t.map_values(f).to_multiset(),
{
    assert forall|x: V|
        #[trigger] occurrences(s.map_values(f), x) == occurrences(t.map_values(f), x) by {
        occurrences_of_map(s, f, x);
        occurrences_of_map(t, f, x);
        lists::sum_by_of_permutation(
            s,
            t,
            |u: U|
                if f(u) == x {
                    1nat
                } else {
                    0
                },
        );
    }
    same_occurrences_same_items(s.map_values(f), t.map_values(f));
}

proof fn occurrences_of_filter<V>(s: Seq<V>, p: spec_fn(V) -> bool, x: V)
    ensures
        occurrences(s.filter(p), x) == if p(x) {
            occurrences(s, x)
        } else {
            0
        },
    decreases s.len(),
{
    reveal(Seq::filter);
    if s.len() > 0 {
        let front = s.drop_last();
        occurrences_of_filter(front, p, x);
        if p(s.last()) {
            assert(front.filter(p).push(s.last()).drop_last() =~= front.filter(p));
        }
    }
}

/// A filter passes the same items in whatever order they are given.
pub proof fn filter_of_permutation<V>(s: Seq<V>, t: Seq<V>, p: spec_fn(V) -> bool)
    requires
        s.to_multiset() == t.to_multiset(),
    ensures
        s.filter(p).to_multiset() == t.filter(p).to_multiset(),
{
    assert forall|x: V| #[trigger] occurrences(s.filter(p), x) == occurrences(t.filter(p), x) by {
        occurrences_of_filter(s, p, x);
        occurrences_of_filter(t, p, x);
        occurrences_are_counts(s, x);
        occurrences_are_counts(t, x);
    }
    same_occurrences_same_items(s.filter(p), t.filter(p));
}

/// A list has the same different items in whatever order they are given.
pub proof fn distinct_of_permutation<V>(s: Seq<V>, t: Seq<V>)
    requires
        s.to_multiset() == t.to_multiset(),
    ensures
        distinct(s).to_multiset() == distinct(t).to_multiset(),
{
    broadcast use vstd::seq_lib::group_to_multiset_ensures;

    distinct_unique(s);
    distinct_unique(t);
    assert forall|x: V| #[trigger] distinct(s).contains(x) <==> distinct(t).contains(x) by {
        distinct_members(s, x);
        distinct_members(t, x);
        assert(s.contains(x) <==> s.to_multiset().count(x) > 0);
        assert(t.contains(x) <==> t.to_multiset().count(x) > 0);
    }
    lists::same_members_same_items(distinct(s), distinct(t));
}

/// Names are counted the same in whatever order they come: the tallies have the same entries.
pub proof fn tally_of_permutation(names: Seq<Seq<char>>, others: Seq<Seq<char>>)
    requires
        names.to_multiset() == others.to_multiset(),
    ensures
        tally(names).to_multiset() == tally(others).to_multiset(),
{
    let count = |name: Seq<char>| (name, occurrences(names, name));
    distinct_of_permutation(names, others);
    map_of_permutation(distinct(names), distinct(others), count);
    assert forall|name: Seq<char>| #[trigger] occurrences(names, name) == occurrences(others, name) by {
        occurrences_are_counts(names, name);
        occurrences_are_counts(others, name);
    }
    assert(tally(others) =~= distinct(others).map_values(count));
}

// ---------------------------------------------------------------------------
// What a table of counts says
// ---------------------------------------------------------------------------

/// At how many places of `names` this name stands.
pub open spec fn times_in(names: Seq<Seq<char>>, name: Seq<char>) -> nat {
    names.filter(|other: Seq<char>| other == name).len()
}

/// Whether `table` says how often each name occurs: it has one entry for each name that occurs, with
/// the number of places at which it stands, and no other entry.
pub open spec fn counts_names(table: Seq<(Seq<char>, nat)>, names: Seq<Seq<char>>) -> bool {
    &&& forall|i: int, j: int|
        0 <= i < table.len() && 0 <= j < table.len() && i != j ==> (#[trigger] table[i]).0 != (
        #[trigger] table[j]).0
    &&& forall|i: int|
        0 <= i < table.len() ==> (#[trigger] table[i]).1 > 0 && table[i].1 == times_in(
            names,
            table[i].0,
        )
    &&& forall|k: int|
        0 <= k < names.len() ==> exists|i: int|
            0 <= i < table.len() && (#[trigger] table[i]).0 == #[trigger] names[k]
}

/// A name occurs as often as there are places at which it stands.
pub proof fn occurrences_are_places(names: Seq<Seq<char>>, name: Seq<char>)
    ensures
        occurrences(names, name) == times_in(names, name),
    decreases names.len(),
{
    reveal(Seq::filter);
    if names.len() > 0 {
        occurrences_are_places(names.drop_last(), name);
    }
}

/// A tally says how often each name occurs.
pub proof fn tally_counts_names(names: Seq<Seq<char>>)
    ensures
        counts_names(tally(names), names),
{
    let table = tally(names);
    let d = distinct(names);
    distinct_unique(names);
    assert forall|i: int| 0 <= i < table.len() implies (#[trigger] table[i]).1 > 0 && table[i].1
        == times_in(names, table[i].0) by {
        assert(d.contains(d[i]));
        distinct_members(names, d[i]);
        occurrences_zero(names, d[i]);
        occurrences_are_places(names, d[i]);
    }
    assert forall|k: int| 0 <= k < names.len() implies exists|i: int|
        0 <= i < table.len() && (#[trigger] table[i]).0 == #[trigger] names[k] by {
        assert(names.contains(names[k]));
        distinct_members(names, names[k]);
        let i = choose|i: int| 0 <= i < d.len() && d[i] == names[k];
        assert(table[i].0 == names[k]);
    }
}

/// A ranking holds the entries of the table, the greater counts first and equal ones by name.
pub proof fn ranking_is_by_count(table: Seq<(Seq<char>, nat)>, i: int, j: int)
    requires
        0 <= i < j < ranked(table).len(),
    ensures
        ranked(table).to_multiset() == table.to_multiset(),
        ranked(table)[i].1 >= ranked(table)[j].1,
        ranked(table)[i].1 == ranked(table)[j].1 ==> text::text_leq(
            ranked(table)[i].0,
            ranked(table)[j].0,
        ),
{
    let leq = order::order_of::<Count, ByCount>();
    order::sorted_keeps_items(table, leq);
    order::sorted_is_ascending::<Count, ByCount>(table);
    assert(leq(ranked(table)[i], ranked(table)[j]));
}

/// The view of a table is its entries, each a name and a number.
pub proof fn tables_show_their_entries(table: CountTable, entry: Count, i: int)
    requires
        0 <= i < table.entries.len(),
    ensures
        table.deep_view().len() == table.entries.len(),
        table.deep_view()[i] == (table.entries[i].name@, table.entries[i].count as nat),
        entry.deep_view() == (entry.name@, entry.count as nat),
{
}

} // verus!
