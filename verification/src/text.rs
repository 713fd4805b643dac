//! Text as sequences of characters.

use crate::lists;
use crate::order;
use crate::order::{stable_sort, Order};
use vstd::prelude::*;
use vstd::string::*;

verus! {

// ---------------------------------------------------------------------------
// Characters and bytes
// ---------------------------------------------------------------------------

/// The characters of `text`.
pub fn chars_of(text: &str) -> (chars: Vec<char>)
    ensures
        chars@ == text@,
{
    let mut chars: Vec<char> = Vec::new();
    for c in it: text.chars()
        invariant
            it.seq() == text@,
            chars@ == text@.take(it.index()),
    {
        chars.push(c);
    }
    assert(text@.take(text@.len() as int) =~= text@);
    chars
}

/// How many bytes `text` takes in UTF-8.
pub open spec fn byte_len(text: Seq<char>) -> nat {
    vstd::utf8::encode_utf8(text).len()
}

/// The length of `text` in bytes.
pub fn len_in_bytes(text: &str) -> (n: usize)
    ensures
        n == byte_len(text@),
{
    text.as_bytes().len()
}

/// Whether two texts are the same.
pub fn same_text(a: &str, b: &str) -> (same: bool)
    ensures
        same == (a@ == b@),
{
    let mut left = a.chars();
    let mut right = b.chars();
    loop
        invariant
            vstd::std_specs::iter::IteratorSpec::obeys_prophetic_iter_laws(&left),
            vstd::std_specs::iter::IteratorSpec::obeys_prophetic_iter_laws(&right),
            vstd::std_specs::iter::IteratorSpec::decrease(&left) is Some,
            (a@ == b@) == (vstd::std_specs::iter::IteratorSpec::remaining(&left)
                == vstd::std_specs::iter::IteratorSpec::remaining(&right)),
        decreases vstd::std_specs::iter::IteratorSpec::decrease(&left)->0,
    {
        let ghost x_rest = vstd::std_specs::iter::IteratorSpec::remaining(&left);
        let ghost y_rest = vstd::std_specs::iter::IteratorSpec::remaining(&right);
        match (left.next(), right.next()) {
            (None, None) => {
                assert(x_rest =~= y_rest);
                return true;
            },
            (Some(x), Some(y)) => {
                if x != y {
                    assert(x_rest[0] != y_rest[0]);
                    return false;
                }
                assert(x_rest =~= seq![x] + x_rest.drop_first());
                assert(y_rest =~= seq![y] + y_rest.drop_first());
            },
            _ => {
                assert(x_rest.len() != y_rest.len());
                return false;
            },
        }
    }
}

// ---------------------------------------------------------------------------
// Order
// ---------------------------------------------------------------------------

/// Dictionary order by code point.
pub open spec fn text_leq(a: Seq<char>, b: Seq<char>) -> bool
    decreases a.len(),
{
    if a.len() == 0 {
        true
    } else if b.len() == 0 {
        false
    } else if a[0] != b[0] {
        a[0] < b[0]
    } else {
        text_leq(a.drop_first(), b.drop_first())
    }
}

/// Dictionary order is total.
pub proof fn text_leq_total(a: Seq<char>, b: Seq<char>)
    ensures
        text_leq(a, b) || text_leq(b, a),
    decreases a.len(),
{
    if a.len() > 0 && b.len() > 0 && a[0] == b[0] {
        text_leq_total(a.drop_first(), b.drop_first());
    }
}

/// Dictionary order is transitive.
pub proof fn text_leq_transitive(a: Seq<char>, b: Seq<char>, c: Seq<char>)
    requires
        text_leq(a, b),
        text_leq(b, c),
    ensures
        text_leq(a, c),
    decreases a.len(),
{
    if a.len() > 0 && b.len() > 0 && c.len() > 0 && a[0] == b[0] && b[0] == c[0] {
        text_leq_transitive(a.drop_first(), b.drop_first(), c.drop_first());
    }
}

/// Only equal texts stand before one another both ways.
pub proof fn text_leq_antisymmetric(a: Seq<char>, b: Seq<char>)
    requires
        text_leq(a, b),
        text_leq(b, a),
    ensures
        a == b,
    decreases a.len(),
{
    if a.len() > 0 && b.len() > 0 {
        text_leq_antisymmetric(a.drop_first(), b.drop_first());
        assert(a =~= seq![a[0]] + a.drop_first());
        assert(b =~= seq![b[0]] + b.drop_first());
    } else {
        assert(a =~= b);
    }
}

/// Decides dictionary order.
pub fn text_at_or_before(a: &str, b: &str) -> (answer: bool)
    ensures
        answer == text_leq(a@, b@),
{
    let mut left = a.chars();
    let mut right = b.chars();
    loop
        invariant
            vstd::std_specs::iter::IteratorSpec::obeys_prophetic_iter_laws(&left),
            vstd::std_specs::iter::IteratorSpec::obeys_prophetic_iter_laws(&right),
            vstd::std_specs::iter::IteratorSpec::decrease(&left) is Some,
            text_leq(a@, b@) == text_leq(
                vstd::std_specs::iter::IteratorSpec::remaining(&left),
                vstd::std_specs::iter::IteratorSpec::remaining(&right),
            ),
        decreases vstd::std_specs::iter::IteratorSpec::decrease(&left)->0,
    {
        match (left.next(), right.next()) {
            (None, _) => {
                return true;
            },
            (Some(_), None) => {
                return false;
            },
            (Some(x), Some(y)) => {
                if x != y {
                    return x < y;
                }
            },
        }
    }
}

/// Texts in dictionary order.
pub struct ByText;

impl Order<String> for ByText {
    open spec fn leq(a: Seq<char>, b: Seq<char>) -> bool {
        text_leq(a, b)
    }

    fn at_or_before(a: &String, b: &String) -> (answer: bool) {
        text_at_or_before(a.as_str(), b.as_str())
    }

    proof fn total(a: Seq<char>, b: Seq<char>) {
        text_leq_total(a, b);
    }

    proof fn transitive(a: Seq<char>, b: Seq<char>, c: Seq<char>) {
        text_leq_transitive(a, b, c);
    }
}

/// `s` without the items that equal the one before them.
pub open spec fn without_repeats(s: Seq<Seq<char>>) -> Seq<Seq<char>>
    decreases s.len(),
{
    if s.len() == 0 {
        s
    } else if s.len() >= 2 && s[s.len() - 2] == s.last() {
        without_repeats(s.drop_last())
    } else {
        without_repeats(s.drop_last()).push(s.last())
    }
}

/// The different texts of `s` in dictionary order.
pub open spec fn sorted_distinct(s: Seq<Seq<char>>) -> Seq<Seq<char>> {
    without_repeats(order::sorted(s, order::order_of::<String, ByText>()))
}

/// Sorts `items` and drops all but one of those that are equal.
pub fn sort_distinct(items: Vec<String>) -> (out: Vec<String>)
    ensures
        out.deep_view() == sorted_distinct(items.deep_view()),
{
    let ordered: Vec<String> = stable_sort::<String, ByText>(items);
    let ghost input = ordered.deep_view();
    let mut out: Vec<String> = Vec::new();
    assert(out.deep_view() =~= without_repeats(input.take(0)));
    for item in it: ordered
        invariant
            input.len() == it.seq().len(),
            forall|k: int| 0 <= k < input.len() ==> input[k] == (#[trigger] it.seq()[k]).deep_view(),
            out.deep_view() == without_repeats(input.take(it.index())),
            it.index() > 0 ==> out.len() > 0 && out[out.len() - 1]@ == input[it.index() - 1],
            it.index() == 0 ==> out.len() == 0,
    {
        let ghost next = input.take(it.index() + 1);
        let ghost before = out.deep_view();
        proof {
            assert(next.drop_last() =~= input.take(it.index()));
            assert(next.last() == item@);
        }
        let repeated: bool = out.len() > 0 && same_text(out[out.len() - 1].as_str(), item.as_str());
        if !repeated {
            out.push(item);
            assert(out.deep_view() =~= before.push(next.last()));
        }
    }
    assert(input.take(input.len() as int) =~= input);
    out
}

proof fn without_repeats_members(s: Seq<Seq<char>>, x: Seq<char>)
    ensures
        without_repeats(s).contains(x) == s.contains(x),
    decreases s.len(),
{
    if s.len() > 0 {
        let front = s.drop_last();
        without_repeats_members(front, x);
        assert(s =~= front.push(s.last()));
        assert(s.contains(x) <==> front.contains(x) || s.last() == x) by {
            if s.contains(x) {
                let k = choose|k: int| 0 <= k < s.len() && s[k] == x;
                if k < front.len() {
                    assert(front[k] == x);
                }
            }
            if front.contains(x) {
                let k = choose|k: int| 0 <= k < front.len() && front[k] == x;
                assert(s[k] == x);
            }
            if s.last() == x {
                assert(s[s.len() - 1] == x);
            }
        }
        if s.len() >= 2 && s[s.len() - 2] == s.last() {
            assert(front[s.len() - 2] == s.last());
        } else {
            let r = without_repeats(front);
            assert(r.push(s.last()).contains(x) <==> r.contains(x) || s.last() == x) by {
                if r.push(s.last()).contains(x) {
                    let k = choose|k: int| 0 <= k < r.push(s.last()).len() && r.push(s.last())[k] == x;
                    if k < r.len() {
                        assert(r[k] == x);
                    }
                }
                if r.contains(x) {
                    let k = choose|k: int| 0 <= k < r.len() && r[k] == x;
                    assert(r.push(s.last())[k] == x);
                }
                if s.last() == x {
                    assert(r.push(s.last())[r.len() as int] == x);
                }
            }
        }
    }
}

/// Whether each text of `s` stands strictly before the ones behind it.
pub open spec fn strictly_ascending(s: Seq<Seq<char>>) -> bool {
    forall|i: int, j: int|
        0 <= i < j < s.len() ==> #[trigger] text_leq(s[i], s[j]) && s[i] != s[j]
}

proof fn without_repeats_strict(s: Seq<Seq<char>>)
    requires
        order::ascending(s, order::order_of::<String, ByText>()),
    ensures
        strictly_ascending(without_repeats(s)),
    decreases s.len(),
{
    let leq = order::order_of::<String, ByText>();
    if s.len() > 0 {
        let front = s.drop_last();
        assert forall|i: int, j: int| 0 <= i < j < front.len() implies #[trigger] leq(
            front[i],
            front[j],
        ) by {
            assert(leq(s[i], s[j]));
        }
        without_repeats_strict(front);
        if !(s.len() >= 2 && s[s.len() - 2] == s.last()) {
            let r = without_repeats(front);
            let q = r.push(s.last());
            assert forall|i: int, j: int| 0 <= i < j < q.len() implies #[trigger] text_leq(
                q[i],
                q[j],
            ) && q[i] != q[j] by {
                if j < r.len() {
                    assert(text_leq(r[i], r[j]));
                } else {
                    without_repeats_members(front, r[i]);
                    assert(r.contains(r[i]));
                    let k = choose|k: int| 0 <= k < front.len() && front[k] == r[i];
                    assert(leq(s[k], s[s.len() - 1]));
                    if k < s.len() - 2 {
                        assert(leq(s[k], s[s.len() - 2]));
                        assert(leq(s[s.len() - 2], s[s.len() - 1]));
                        if r[i] == s.last() {
                            text_leq_antisymmetric(s[s.len() - 2], s.last());
                        }
                    }
                }
            }
        }
    }
}

/// The sorted list of the different texts of `s` holds each of them once, in dictionary order, and
/// no other text.
pub proof fn sorted_distinct_is_strict(s: Seq<Seq<char>>)
    ensures
        strictly_ascending(sorted_distinct(s)),
        forall|x: Seq<char>| #[trigger] sorted_distinct(s).contains(x) <==> s.contains(x),
{
    let leq = order::order_of::<String, ByText>();
    order::sorted_is_ascending::<String, ByText>(s);
    without_repeats_strict(order::sorted(s, leq));
    assert forall|x: Seq<char>| #[trigger] sorted_distinct(s).contains(x) <==> s.contains(x) by {
        without_repeats_members(order::sorted(s, leq), x);
        order::sorted_contains(s, leq, x);
    }
}

// ---------------------------------------------------------------------------
// Searching and cutting
// ---------------------------------------------------------------------------

/// Whether `part` stands in `text` at position `at`.
pub open spec fn occurs_at(text: Seq<char>, part: Seq<char>, at: int) -> bool {
    0 <= at && at + part.len() <= text.len() && text.subrange(at, at + part.len()) == part
}

/// Whether `part` stands in `text` as an unbroken run of characters.
pub open spec fn contains_text(text: Seq<char>, part: Seq<char>) -> bool {
    exists|at: int| occurs_at(text, part, at)
}

/// Whether `text` begins with `prefix`.
pub open spec fn begins_with(text: Seq<char>, prefix: Seq<char>) -> bool {
    occurs_at(text, prefix, 0)
}

/// Whether `text` ends with `suffix`.
pub open spec fn ends_with(text: Seq<char>, suffix: Seq<char>) -> bool {
    occurs_at(text, suffix, text.len() - suffix.len())
}

/// Whether `part` stands in `text` at position `at`.
fn matches_at(text: &Vec<char>, part: &Vec<char>, at: usize) -> (found: bool)
    ensures
        found == occurs_at(text@, part@, at as int),
{
    if text.len() < part.len() || text.len() - part.len() < at {
        return false;
    }
    let mut i: usize = 0;
    while i < part.len()
        invariant
            i <= part.len(),
            at + part.len() <= text.len(),
            forall|k: int| 0 <= k < i ==> text@[at + k] == part@[k],
        decreases part.len() - i,
    {
        if text[at + i] != part[i] {
            assert(text@.subrange(at as int, at + part.len())[i as int] != part@[i as int]);
            return false;
        }
        i = i + 1;
    }
    assert(text@.subrange(at as int, at + part.len()) =~= part@);
    true
}

/// Whether `part` stands in `text`.
pub fn contains(text: &str, part: &str) -> (found: bool)
    ensures
        found == contains_text(text@, part@),
{
    let hay: Vec<char> = chars_of(text);
    let needle: Vec<char> = chars_of(part);
    let mut at: usize = 0;
    while at < hay.len()
        invariant
            at <= hay.len(),
            hay@ == text@,
            needle@ == part@,
            forall|k: int| 0 <= k < at ==> !occurs_at(text@, part@, k),
        decreases hay.len() - at,
    {
        if matches_at(&hay, &needle, at) {
            return true;
        }
        at = at + 1;
    }
    matches_at(&hay, &needle, at)
}

/// Whether `text` begins with `prefix`.
pub fn has_prefix(text: &str, prefix: &str) -> (found: bool)
    ensures
        found == begins_with(text@, prefix@),
{
    matches_at(&chars_of(text), &chars_of(prefix), 0)
}

/// A text has at least as many bytes as characters.
pub proof fn chars_fit_in_bytes(text: Seq<char>)
    ensures
        text.len() <= byte_len(text),
    decreases text.len(),
{
    if text.len() > 0 {
        chars_fit_in_bytes(text.drop_first());
    }
}

/// The first `max` characters of `text`, or all of them where there are fewer.
pub open spec fn first_chars(text: Seq<char>, max: nat) -> Seq<char> {
    if text.len() <= max {
        text
    } else {
        text.take(max as int)
    }
}

/// Cuts `text` after `max` characters.
pub fn take_chars(text: &str, max: usize) -> (head: String)
    ensures
        head@ == first_chars(text@, max as nat),
{
    let count: usize = text.unicode_len();
    if count <= max {
        text.to_owned()
    } else {
        text.substring_char(0, max).to_owned()
    }
}

/// The characters with the Unicode property `White_Space`.
pub open spec fn is_space(c: char) -> bool {
    ||| '\u{9}' <= c <= '\u{d}'
    ||| c == '\u{20}'
    ||| c == '\u{85}'
    ||| c == '\u{a0}'
    ||| c == '\u{1680}'
    ||| '\u{2000}' <= c <= '\u{200a}'
    ||| c == '\u{2028}'
    ||| c == '\u{2029}'
    ||| c == '\u{202f}'
    ||| c == '\u{205f}'
    ||| c == '\u{3000}'
}

/// Whether `c` is white space.
fn is_space_char(c: char) -> (answer: bool)
    ensures
        answer == is_space(c),
{
    ('\u{9}' <= c && c <= '\u{d}') || c == '\u{20}' || c == '\u{85}' || c == '\u{a0}' || c
        == '\u{1680}' || ('\u{2000}' <= c && c <= '\u{200a}') || c == '\u{2028}' || c
        == '\u{2029}' || c == '\u{202f}' || c == '\u{205f}' || c == '\u{3000}'
}

/// `text` without the white space at its two ends.
pub open spec fn trimmed(text: Seq<char>) -> Seq<char>
    decreases text.len(),
{
    if text.len() == 0 {
        text
    } else if is_space(text[0]) {
        trimmed(text.drop_first())
    } else if is_space(text.last()) {
        trimmed(text.drop_last())
    } else {
        text
    }
}

/// Cuts the white space at the two ends of `text`.
pub fn trim(text: &str) -> (inner: String)
    ensures
        inner@ == trimmed(text@),
{
    let chars: Vec<char> = chars_of(text);
    let mut from: usize = 0;
    let mut to: usize = chars.len();
    assert(text@.subrange(0, to as int) =~= text@);
    while from < to && is_space_char(chars[from])
        invariant
            from <= to,
            to == chars.len(),
            chars@ == text@,
            trimmed(text@) == trimmed(text@.subrange(from as int, to as int)),
        decreases to - from,
    {
        assert(text@.subrange(from as int, to as int).drop_first() =~= text@.subrange(
            from + 1,
            to as int,
        ));
        from = from + 1;
    }
    while from < to && is_space_char(chars[to - 1])
        invariant
            from <= to,
            to <= chars.len(),
            chars@ == text@,
            from < to ==> !is_space(text@[from as int]),
            trimmed(text@) == trimmed(text@.subrange(from as int, to as int)),
        decreases to - from,
    {
        assert(text@.subrange(from as int, to as int).drop_last() =~= text@.subrange(
            from as int,
            to - 1,
        ));
        to = to - 1;
    }
    text.substring_char(from, to).to_owned()
}

// ---------------------------------------------------------------------------
// Numbers
// ---------------------------------------------------------------------------

/// The decimal digit for a number below ten.
pub open spec fn digit(n: nat) -> char {
    if n == 0 {
        '0'
    } else if n == 1 {
        '1'
    } else if n == 2 {
        '2'
    } else if n == 3 {
        '3'
    } else if n == 4 {
        '4'
    } else if n == 5 {
        '5'
    } else if n == 6 {
        '6'
    } else if n == 7 {
        '7'
    } else if n == 8 {
        '8'
    } else {
        '9'
    }
}

/// `n` in decimal, without leading zeros.
pub open spec fn decimal(n: nat) -> Seq<char>
    decreases n,
{
    if n < 10 {
        seq![digit(n)]
    } else {
        decimal(n / 10).push(digit(n % 10))
    }
}

/// `n` in decimal, with a minus sign where it is negative.
pub open spec fn signed_decimal(n: int) -> Seq<char> {
    if n < 0 {
        "-"@ + decimal((-n) as nat)
    } else {
        decimal(n as nat)
    }
}

/// Writes the last decimal digit of `n`.
fn last_digit(n: u64) -> (text: &'static str)
    ensures
        text@ == seq![digit((n % 10) as nat)],
{
    let d: u64 = n % 10;
    proof {
        reveal_strlit("0");
        reveal_strlit("1");
        reveal_strlit("2");
        reveal_strlit("3");
        reveal_strlit("4");
        reveal_strlit("5");
        reveal_strlit("6");
        reveal_strlit("7");
        reveal_strlit("8");
        reveal_strlit("9");
    }
    let text: &'static str = if d == 0 {
        "0"
    } else if d == 1 {
        "1"
    } else if d == 2 {
        "2"
    } else if d == 3 {
        "3"
    } else if d == 4 {
        "4"
    } else if d == 5 {
        "5"
    } else if d == 6 {
        "6"
    } else if d == 7 {
        "7"
    } else if d == 8 {
        "8"
    } else {
        "9"
    };
    assert(text@ =~= seq![digit((n % 10) as nat)]);
    text
}

/// Writes `n` in decimal.
pub fn decimal_text(n: u64) -> (text: String)
    ensures
        text@ == decimal(n as nat),
    decreases n,
{
    if n < 10 {
        last_digit(n).to_owned()
    } else {
        let mut text: String = decimal_text(n / 10);
        text.append(last_digit(n));
        assert(text@ =~= decimal((n / 10) as nat).push(digit((n % 10) as nat)));
        text
    }
}

/// Writes `n` in decimal.
pub fn signed_decimal_text(n: i64) -> (text: String)
    ensures
        text@ == signed_decimal(n as int),
{
    if n < 0 {
        let magnitude: u64 = (-(n as i128)) as u64;
        let mut text: String = "-".to_owned();
        text.append(decimal_text(magnitude).as_str());
        text
    } else {
        decimal_text(n as u64)
    }
}

// ---------------------------------------------------------------------------
// Padding and joining
// ---------------------------------------------------------------------------

/// `n` blanks.
pub open spec fn blanks(n: nat) -> Seq<char> {
    Seq::new(n, |i: int| ' ')
}

/// `text` with blanks behind it up to `width` characters.
pub open spec fn padded_right(text: Seq<char>, width: nat) -> Seq<char> {
    if text.len() < width {
        text + blanks((width - text.len()) as nat)
    } else {
        text
    }
}

/// `text` with blanks before it up to `width` characters.
pub open spec fn padded_left(text: Seq<char>, width: nat) -> Seq<char> {
    if text.len() < width {
        blanks((width - text.len()) as nat) + text
    } else {
        text
    }
}

/// Writes `n` blanks.
fn blank_text(n: usize) -> (text: String)
    ensures
        text@ == blanks(n as nat),
{
    let mut text: String = String::new();
    let mut i: usize = 0;
    proof {
        reveal_strlit(" ");
        assert(text@ =~= blanks(0));
    }
    while i < n
        invariant
            i <= n,
            text@ == blanks(i as nat),
        decreases n - i,
    {
        proof {
            reveal_strlit(" ");
        }
        text.append(" ");
        i = i + 1;
        assert(text@ =~= blanks(i as nat));
    }
    text
}

/// Pads `text` on its right to `width` characters.
pub fn pad_right(text: &str, width: usize) -> (wide: String)
    ensures
        wide@ == padded_right(text@, width as nat),
{
    let count: usize = text.unicode_len();
    let mut wide: String = text.to_owned();
    if count < width {
        wide.append(blank_text(width - count).as_str());
    }
    wide
}

/// Pads `text` on its left to `width` characters.
pub fn pad_left(text: &str, width: usize) -> (wide: String)
    ensures
        wide@ == padded_left(text@, width as nat),
{
    let count: usize = text.unicode_len();
    if count < width {
        let mut wide: String = blank_text(width - count);
        wide.append(text);
        wide
    } else {
        text.to_owned()
    }
}

/// The texts of `parts` one behind the other, with `between` between any two.
pub open spec fn joined(parts: Seq<Seq<char>>, between: Seq<char>) -> Seq<char>
    decreases parts.len(),
{
    if parts.len() == 0 {
        Seq::empty()
    } else if parts.len() == 1 {
        parts[0]
    } else {
        joined(parts.drop_last(), between) + between + parts.last()
    }
}

/// Joins `parts` with `between`.
pub fn join(parts: &Vec<String>, between: &str) -> (text: String)
    ensures
        text@ == joined(parts.deep_view(), between@),
{
    let ghost all = parts.deep_view();
    let mut text: String = String::new();
    let mut i: usize = 0;
    assert(all.take(0) =~= Seq::<Seq<char>>::empty());
    while i < parts.len()
        invariant
            i <= parts.len(),
            all == parts.deep_view(),
            text@ == joined(all.take(i as int), between@),
        decreases parts.len() - i,
    {
        let ghost next = all.take(i + 1);
        assert(next.drop_last() =~= all.take(i as int));
        assert(next.last() == parts[i as int]@);
        if i > 0 {
            text.append(between);
        }
        text.append(parts[i].as_str());
        if i == 0 {
            assert(text@ =~= parts[0]@);
        }
        i = i + 1;
    }
    assert(all.take(i as int) =~= all);
    text
}

// ---------------------------------------------------------------------------
// Lower case
// ---------------------------------------------------------------------------

/// What `str::to_lowercase` gives for a text.
pub uninterp spec fn lowercase(text: Seq<char>) -> Seq<char>;

/// Calls `str::to_lowercase`. The contract says only that the result depends on the characters of
/// `text` alone, and names it; the Unicode case mapping itself is not stated.
#[verifier::external_body]
pub(crate) fn to_lower(text: &str) -> (lower: String)
    ensures
        lower@ == lowercase(text@),
{
    text.to_lowercase()
}

// ---------------------------------------------------------------------------
// Orders that do not matter
// ---------------------------------------------------------------------------

/// Texts in strict dictionary order are all different.
proof fn strict_has_no_repeats(s: Seq<Seq<char>>)
    requires
        strictly_ascending(s),
    ensures
        s.no_duplicates(),
        order::ascending(s, order::order_of::<String, ByText>()),
{
    let leq = order::order_of::<String, ByText>();
    assert forall|i: int, j: int| 0 <= i < j < s.len() implies #[trigger] leq(s[i], s[j]) && s[i]
        != s[j] by {
        assert(text_leq(s[i], s[j]));
    }
    assert forall|i: int, j: int| 0 <= i < s.len() && 0 <= j < s.len() && i != j implies s[i]
        != s[j] by {
        if i < j {
            assert(leq(s[i], s[j]));
        } else {
            assert(leq(s[j], s[i]));
        }
    }
}

/// The different texts of a list in dictionary order depend only on which texts it holds.
pub proof fn sorted_distinct_of_same_members(s: Seq<Seq<char>>, t: Seq<Seq<char>>)
    requires
        forall|x: Seq<char>| #[trigger] s.contains(x) <==> t.contains(x),
    ensures
        sorted_distinct(s) == sorted_distinct(t),
{
    let leq = order::order_of::<String, ByText>();
    let a = sorted_distinct(s);
    let b = sorted_distinct(t);
    sorted_distinct_is_strict(s);
    sorted_distinct_is_strict(t);
    strict_has_no_repeats(a);
    strict_has_no_repeats(b);
    assert forall|x: Seq<char>| #[trigger] a.contains(x) <==> b.contains(x) by {
        assert(s.contains(x) <==> t.contains(x));
    }
    lists::same_members_same_items(a, b);
    assert forall|x: Seq<char>, y: Seq<char>|
        a.contains(x) && a.contains(y) && #[trigger] leq(x, y) && leq(y, x) implies x == y by {
        text_leq_antisymmetric(x, y);
    }
    order::ascending_is_unique(a, b, leq);
}

// ---------------------------------------------------------------------------
// What the words mean
// ---------------------------------------------------------------------------

/// A text contains what stands in its middle, whatever stands around it; and what it contains
/// stands in its middle.
pub proof fn contains_is_between(text: Seq<char>, part: Seq<char>)
    ensures
        contains_text(text, part) <==> exists|before: Seq<char>, behind: Seq<char>|
            text == #[trigger] (before + part + behind),
{
    if contains_text(text, part) {
        let at = choose|at: int| occurs_at(text, part, at);
        let before = text.take(at);
        let behind = text.skip(at + part.len());
        assert(text.subrange(at, at + part.len()) == part);
        assert(text =~= before + part + behind);
    }
    if exists|before: Seq<char>, behind: Seq<char>| text == #[trigger] (before + part + behind) {
        let (before, behind) = choose|before: Seq<char>, behind: Seq<char>|
            text == #[trigger] (before + part + behind);
        assert(text.subrange(before.len() as int, (before.len() + part.len()) as int) =~= part);
        assert(occurs_at(text, part, before.len() as int));
    }
}

/// A text begins with a prefix exactly where it is the prefix and something behind it, and ends with
/// a suffix exactly where it is the suffix and something before it.
pub proof fn begins_and_ends(text: Seq<char>, part: Seq<char>)
    ensures
        begins_with(text, part) <==> exists|behind: Seq<char>| text == #[trigger] (part + behind),
        ends_with(text, part) <==> exists|before: Seq<char>| text == #[trigger] (before + part),
{
    if begins_with(text, part) {
        assert(text =~= part + text.skip(part.len() as int));
    }
    if exists|behind: Seq<char>| text == #[trigger] (part + behind) {
        let behind = choose|behind: Seq<char>| text == #[trigger] (part + behind);
        assert(text.subrange(0, part.len() as int) =~= part);
    }
    if ends_with(text, part) {
        assert(text =~= text.take(text.len() - part.len()) + part);
    }
    if exists|before: Seq<char>| text == #[trigger] (before + part) {
        let before = choose|before: Seq<char>| text == #[trigger] (before + part);
        assert(text.subrange(text.len() - part.len(), text.len() as int) =~= part);
    }
}

/// A text stands at or before another exactly where the other begins with it, or where it has the
/// lesser character at the first place at which the two differ.
pub proof fn text_leq_is_dictionary_order(a: Seq<char>, b: Seq<char>)
    ensures
        text_leq(a, b) <==> (a.len() <= b.len() && b.take(a.len() as int) == a) || exists|k: int|
            0 <= k < a.len() && k < b.len() && #[trigger] a[k] < b[k] && a.take(k) == b.take(k),
    decreases a.len(),
{
    if a.len() == 0 {
        assert(b.take(0) =~= a);
    } else if b.len() > 0 {
        let x = a.drop_first();
        let y = b.drop_first();
        if a[0] != b[0] {
            if a.len() <= b.len() && b.take(a.len() as int) == a {
                assert(b.take(a.len() as int)[0] == b[0]);
            }
            if a[0] < b[0] {
                assert(a.take(0) =~= b.take(0));
            }
            if exists|k: int|
                0 <= k < a.len() && k < b.len() && #[trigger] a[k] < b[k] && a.take(k) == b.take(k) {
                let k = choose|k: int|
                    0 <= k < a.len() && k < b.len() && #[trigger] a[k] < b[k] && a.take(k)
                        == b.take(k);
                if k > 0 {
                    assert(a.take(k)[0] == b.take(k)[0]);
                }
            }
        } else {
            text_leq_is_dictionary_order(x, y);
            if x.len() <= y.len() && y.take(x.len() as int) == x {
                assert(b.take(a.len() as int) =~= seq![b[0]] + y.take(x.len() as int));
                assert(a =~= seq![a[0]] + x);
            }
            if a.len() <= b.len() && b.take(a.len() as int) == a {
                assert(y.take(x.len() as int) =~= b.take(a.len() as int).drop_first());
            }
            if exists|k: int|
                0 <= k < x.len() && k < y.len() && #[trigger] x[k] < y[k] && x.take(k) == y.take(k) {
                let k = choose|k: int|
                    0 <= k < x.len() && k < y.len() && #[trigger] x[k] < y[k] && x.take(k)
                        == y.take(k);
                assert(a[k + 1] < b[k + 1]);
                assert(a.take(k + 1) =~= seq![a[0]] + x.take(k));
                assert(b.take(k + 1) =~= seq![b[0]] + y.take(k));
            }
            if exists|k: int|
                0 <= k < a.len() && k < b.len() && #[trigger] a[k] < b[k] && a.take(k) == b.take(k) {
                let k = choose|k: int|
                    0 <= k < a.len() && k < b.len() && #[trigger] a[k] < b[k] && a.take(k)
                        == b.take(k);
                assert(k > 0);
                assert(x[k - 1] < y[k - 1]);
                assert(x.take(k - 1) =~= a.take(k).drop_first());
                assert(y.take(k - 1) =~= b.take(k).drop_first());
            }
        }
    }
}

/// Cutting keeps the beginning: as many characters as are allowed, or all where there are fewer.
pub proof fn first_chars_are_the_beginning(text: Seq<char>, max: nat)
    ensures
        first_chars(text, max).len() == if text.len() < max {
            text.len()
        } else {
            max
        },
        forall|i: int|
            0 <= i < first_chars(text, max).len() ==> #[trigger] first_chars(text, max)[i] == text[i],
{
}

/// White space is the tab and the four characters behind it, the blank, the next line, the no-break
/// space, and the spaces and separators from U+1680 to U+3000 that Unicode lists as such.
pub proof fn white_space_is_that_of_unicode(c: char)
    ensures
        is_space(c) <==> {
            let n = c as int;
            9 <= n <= 13 || n == 32 || n == 133 || n == 160 || n == 5760 || 8192 <= n <= 8202 || n
                == 8232 || n == 8233 || n == 8239 || n == 8287 || n == 12288
        },
{
}

/// Whether all characters of `text` are white space.
pub open spec fn is_blank(text: Seq<char>) -> bool {
    forall|i: int| 0 <= i < text.len() ==> is_space(#[trigger] text[i])
}

/// Trimming takes white space off the two ends, all of it and nothing else.
pub proof fn trimmed_is_the_inside(text: Seq<char>)
    ensures
        exists|before: Seq<char>, behind: Seq<char>|
            text == #[trigger] (before + trimmed(text) + behind) && is_blank(before) && is_blank(
                behind,
            ),
        trimmed(text).len() > 0 ==> !is_space(trimmed(text)[0]) && !is_space(trimmed(text).last()),
    decreases text.len(),
{
    let none = Seq::<char>::empty();
    if text.len() == 0 {
        assert(text =~= none + trimmed(text) + none);
    } else if is_space(text[0]) {
        let rest = text.drop_first();
        trimmed_is_the_inside(rest);
        let (a, b) = choose|a: Seq<char>, b: Seq<char>|
            rest == #[trigger] (a + trimmed(rest) + b) && is_blank(a) && is_blank(b);
        let before = seq![text[0]] + a;
        assert(text =~= seq![text[0]] + rest);
        assert(text =~= before + trimmed(text) + b);
        assert(is_blank(before));
    } else if is_space(text.last()) {
        let rest = text.drop_last();
        trimmed_is_the_inside(rest);
        let (a, b) = choose|a: Seq<char>, b: Seq<char>|
            rest == #[trigger] (a + trimmed(rest) + b) && is_blank(a) && is_blank(b);
        let behind = b.push(text.last());
        assert(text =~= rest.push(text.last()));
        assert(text =~= a + trimmed(text) + behind);
        assert(is_blank(behind)) by {
            assert forall|i: int| 0 <= i < behind.len() implies is_space(#[trigger] behind[i]) by {
                if i < b.len() {
                    assert(behind[i] == b[i]);
                }
            }
        }
    } else {
        assert(text =~= none + trimmed(text) + none);
    }
}

/// The number that a row of decimal digits stands for.
pub open spec fn number_in(digits: Seq<char>) -> int
    decreases digits.len(),
{
    if digits.len() == 0 {
        0
    } else {
        number_in(digits.drop_last()) * 10 + (digits.last() as int - '0' as int)
    }
}

/// A number in decimal consists of digits, stands for the number, and has no zero in front of other
/// digits.
pub proof fn decimal_stands_for_its_number(n: nat)
    ensures
        number_in(decimal(n)) == n,
        decimal(n).len() > 0,
        decimal(n).len() > 1 ==> decimal(n)[0] != '0',
        forall|i: int| 0 <= i < decimal(n).len() ==> '0' <= #[trigger] decimal(n)[i] <= '9',
    decreases n,
{
    reveal_with_fuel(number_in, 2);
    if n < 10 {
        assert(decimal(n).drop_last() =~= Seq::<char>::empty());
    } else {
        decimal_stands_for_its_number(n / 10);
        assert(decimal(n).drop_last() =~= decimal(n / 10));
        if decimal(n / 10).len() == 1 {
            let first = decimal(n / 10);
            assert(first.drop_last() =~= Seq::<char>::empty());
            assert(number_in(first) == first[0] as int - '0' as int);
        }
    }
}

/// A number below zero has a minus sign in front of its magnitude, and no other has one.
pub proof fn signed_decimal_has_a_sign(n: int)
    ensures
        n >= 0 ==> signed_decimal(n) == decimal(n as nat),
        n < 0 ==> signed_decimal(n) == seq!['-'] + decimal((-n) as nat),
{
    reveal_strlit("-");
    assert("-"@ =~= seq!['-']);
}

/// Padding reaches the width with blanks on the side that is named, and cuts nothing.
pub proof fn padding_reaches_the_width(text: Seq<char>, width: nat)
    ensures
        padded_right(text, width).len() == padded_left(text, width).len(),
        padded_right(text, width).len() == if text.len() < width {
            width
        } else {
            text.len()
        },
        padded_right(text, width).take(text.len() as int) == text,
        padded_left(text, width).skip(padded_left(text, width).len() - text.len()) == text,
        forall|i: int|
            text.len() <= i < padded_right(text, width).len() ==> #[trigger] padded_right(
                text,
                width,
            )[i] == ' ',
        forall|i: int|
            0 <= i < padded_left(text, width).len() - text.len() ==> #[trigger] padded_left(
                text,
                width,
            )[i] == ' ',
{
    assert(padded_right(text, width).take(text.len() as int) =~= text);
    assert(padded_left(text, width).skip(padded_left(text, width).len() - text.len()) =~= text);
}

/// Joining puts the separator between any two texts, and nowhere else.
pub proof fn joined_has_separators(parts: Seq<Seq<char>>, more: Seq<Seq<char>>, between: Seq<char>)
    ensures
        joined(Seq::empty(), between) == Seq::<char>::empty(),
        parts.len() == 1 ==> joined(parts, between) == parts[0],
        parts.len() > 0 && more.len() > 0 ==> joined(parts + more, between) == joined(parts, between)
            + between + joined(more, between),
    decreases more.len(),
{
    reveal_with_fuel(joined, 2);
    if parts.len() > 0 && more.len() > 0 {
        let all = parts + more;
        assert(all.drop_last() =~= parts + more.drop_last());
        assert(all.last() == more.last());
        if more.len() == 1 {
            assert(parts + more.drop_last() =~= parts);
            assert(joined(more, between) == more.last());
        } else {
            joined_has_separators(parts, more.drop_last(), between);
            assert(joined(all, between) =~= joined(parts, between) + between + joined(
                more,
                between,
            ));
        }
    }
}

/// Sorting without repeats lists each text of `s` once: every text is there, no other is, none is there
/// twice, and each stands in dictionary order before those behind it.
pub proof fn sorted_distinct_lists_each_text_once(s: Seq<Seq<char>>, i: int, j: int)
    requires
        0 <= i < j < sorted_distinct(s).len(),
    ensures
        text_leq(sorted_distinct(s)[i], sorted_distinct(s)[j]),
        sorted_distinct(s)[i] != sorted_distinct(s)[j],
        s.contains(sorted_distinct(s)[i]),
        forall|k: int| 0 <= k < s.len() ==> sorted_distinct(s).contains(#[trigger] s[k]),
{
    sorted_distinct_is_strict(s);
    let all = sorted_distinct(s);
    assert(text_leq(all[i], all[j]));
    assert(all.contains(all[i]));
    assert forall|k: int| 0 <= k < s.len() implies all.contains(#[trigger] s[k]) by {
        assert(s.contains(s[k]));
    }
}

} // verus!
