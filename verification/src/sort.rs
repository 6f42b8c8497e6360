//! Stable sorting by keys.

use vstd::prelude::*;

use crate::views;

verus! {

/// A key that things are sorted by: a total preorder.
pub trait SortKey: Sized {
    /// Whether this key comes no later than another.
    spec fn le(self, other: Self) -> bool;

    proof fn total(a: Self, b: Self)
        ensures
            a.le(b) || b.le(a),
    ;

    proof fn transitive(a: Self, b: Self, c: Self)
        requires
            a.le(b),
            b.le(c),
        ensures
            a.le(c),
    ;

    /// Tells whether this key comes no later than another.
    fn at_most(&self, other: &Self) -> (yes: bool)
        ensures
            yes == self.le(*other),
    ;
}

/// Whether the thing at place `a` comes before the thing at place `b`: by
/// key, and things of equal keys in the order in which they stand.
pub open spec fn before<K: SortKey>(keys: Seq<K>, a: int, b: int) -> bool {
    keys[a].le(keys[b]) && (keys[b].le(keys[a]) ==> a < b)
}

/// Whether a list of places is in order.
pub open spec fn in_order<K: SortKey>(keys: Seq<K>, order: Seq<usize>) -> bool {
    forall|i: int, j: int|
        0 <= i < j < order.len() ==> before(keys, #[trigger] order[i] as int, #[trigger] order[j] as int)
}

/// Whether a list of places is the stable order of all keys. There is only
/// one such list.
pub open spec fn is_stable_order<K: SortKey>(keys: Seq<K>, order: Seq<usize>) -> bool {
    &&& order.len() == keys.len()
    &&& in_order(keys, order)
    &&& forall|i: int| 0 <= i < order.len() ==> #[trigger] order[i] < keys.len()
    &&& forall|x: usize| x < keys.len() ==> order.contains(x)
}

proof fn lemma_before_transitive<K: SortKey>(keys: Seq<K>, a: int, b: int, c: int)
    requires
        before(keys, a, b),
        before(keys, b, c),
    ensures
        before(keys, a, c),
{
    K::transitive(keys[a], keys[b], keys[c]);
    if keys[c].le(keys[a]) {
        K::transitive(keys[c], keys[a], keys[b]);
        K::transitive(keys[b], keys[c], keys[a]);
    }
}

proof fn lemma_before_total<K: SortKey>(keys: Seq<K>, a: int, b: int)
    ensures
        a != b ==> before(keys, a, b) || before(keys, b, a),
        !(before(keys, a, b) && before(keys, b, a)),
{
    K::total(keys[a], keys[b]);
}

/// Two stable orders of the same keys are the same.
pub proof fn lemma_stable_order_unique<K: SortKey>(
    keys: Seq<K>,
    first: Seq<usize>,
    second: Seq<usize>,
)
    requires
        is_stable_order(keys, first),
        is_stable_order(keys, second),
    ensures
        first == second,
{
    assert forall|i: int| 0 <= i < first.len() implies first[i] == second[i] by {
        lemma_order_agrees(keys, first, second, i);
    }
    assert(first =~= second);
}

proof fn lemma_order_agrees<K: SortKey>(
    keys: Seq<K>,
    first: Seq<usize>,
    second: Seq<usize>,
    i: int,
)
    requires
        is_stable_order(keys, first),
        is_stable_order(keys, second),
        0 <= i < first.len(),
    ensures
        first[i] == second[i],
    decreases i,
{
    assert forall|j: int| 0 <= j < i implies first[j] == second[j] by {
        lemma_order_agrees(keys, first, second, j);
    }
    if first[i] != second[i] {
        let a = first[i];
        let b = second[i];
        assert(second.contains(a));
        let p = choose|p: int| 0 <= p < second.len() && second[p] == a;
        assert(first.contains(b));
        let q = choose|q: int| 0 <= q < first.len() && first[q] == b;
        lemma_before_total(keys, a as int, a as int);
        lemma_before_total(keys, b as int, b as int);
        lemma_before_total(keys, a as int, b as int);
        assert(p > i) by {
            if p < i {
                assert(first[p] == second[p]);
                assert(before(keys, first[p] as int, first[i] as int));
            }
        }
        assert(q > i) by {
            if q < i {
                assert(first[q] == second[q]);
                assert(before(keys, second[q] as int, second[i] as int));
            }
        }
        assert(before(keys, second[i] as int, second[p] as int));
        assert(before(keys, first[i] as int, first[q] as int));
        assert(false);
    }
}

/// Merges two lists of places that are in order.
fn merge<K: SortKey>(keys: &Vec<K>, left: &Vec<usize>, right: &Vec<usize>) -> (out: Vec<usize>)
    requires
        in_order(keys@, left@),
        in_order(keys@, right@),
        forall|i: int| 0 <= i < left@.len() ==> #[trigger] left@[i] < keys@.len(),
        forall|i: int| 0 <= i < right@.len() ==> #[trigger] right@[i] < keys@.len(),
        forall|i: int, j: int|
            0 <= i < left@.len() && 0 <= j < right@.len() ==> #[trigger] left@[i]
                < #[trigger] right@[j],
        left@.len() + right@.len() <= usize::MAX,
    ensures
        in_order(keys@, out@),
        out@.len() == left@.len() + right@.len(),
        forall|x: usize| out@.contains(x) <==> (left@.contains(x) || right@.contains(x)),
{
    let mut out: Vec<usize> = Vec::new();
    let mut i: usize = 0;
    let mut j: usize = 0;
    let ghost k = keys@;
    while i < left.len() || j < right.len()
        invariant
            i <= left@.len(),
            j <= right@.len(),
            k == keys@,
            out@.len() == i + j,
            in_order(k, left@),
            in_order(k, right@),
            in_order(k, out@),
            forall|p: int| 0 <= p < left@.len() ==> #[trigger] left@[p] < k.len(),
            forall|p: int| 0 <= p < right@.len() ==> #[trigger] right@[p] < k.len(),
            forall|p: int, q: int|
                0 <= p < left@.len() && 0 <= q < right@.len() ==> #[trigger] left@[p]
                    < #[trigger] right@[q],
            forall|p: int, q: int|
                0 <= p < out@.len() && i <= q < left@.len() ==> before(
                    k,
                    #[trigger] out@[p] as int,
                    #[trigger] left@[q] as int,
                ),
            forall|p: int, q: int|
                0 <= p < out@.len() && j <= q < right@.len() ==> before(
                    k,
                    #[trigger] out@[p] as int,
                    #[trigger] right@[q] as int,
                ),
            forall|x: usize|
                out@.contains(x) <==> (left@.take(i as int).contains(x) || right@.take(
                    j as int,
                ).contains(x)),
            left@.len() + right@.len() <= usize::MAX,
        decreases left@.len() - i + (right@.len() - j),
    {
        let from_left: bool = if i == left.len() {
            false
        } else if j == right.len() {
            true
        } else {
            keys[left[i]].at_most(&keys[right[j]])
        };
        let ghost prior = out@;
        if from_left {
            let next: usize = left[i];
            proof {
                assert forall|q: int| j <= q < right@.len() implies before(
                    k,
                    next as int,
                    #[trigger] right@[q] as int,
                ) by {
                    assert(left@[i as int] < right@[q]);
                    if q > j {
                        assert(before(k, right@[j as int] as int, right@[q] as int));
                        assert(left@[i as int] < right@[j as int]);
                        lemma_before_transitive(
                            k,
                            next as int,
                            right@[j as int] as int,
                            right@[q] as int,
                        );
                    }
                }
                assert(left@[i as int] == next);
            }
            out.push(next);
            proof {
                assert(out@ == prior.push(next));
                assert forall|x: usize|
                    out@.contains(x) <==> (left@.take(i + 1).contains(x) || right@.take(j as int).contains(
                        x,
                    )) by {
                    lemma_push_has(prior, next, x);
                    lemma_taken_has(left@, i as int, x);
                }
            }
            i = i + 1;
        } else {
            let next: usize = right[j];
            proof {
                assert forall|q: int| i <= q < left@.len() implies before(
                    k,
                    next as int,
                    #[trigger] left@[q] as int,
                ) by {
                    K::total(k[left@[i as int] as int], k[next as int]);
                    if q > i {
                        assert(before(k, left@[i as int] as int, left@[q] as int));
                        lemma_before_transitive(
                            k,
                            next as int,
                            left@[i as int] as int,
                            left@[q] as int,
                        );
                    }
                }
                assert(right@[j as int] == next);
            }
            out.push(next);
            proof {
                assert(out@ == prior.push(next));
                assert forall|x: usize|
                    out@.contains(x) <==> (right@.take(j + 1).contains(x) || left@.take(i as int).contains(
                        x,
                    )) by {
                    lemma_push_has(prior, next, x);
                    lemma_taken_has(right@, j as int, x);
                }
            }
            j = j + 1;
        }
    }
    assert(left@.take(i as int) =~= left@);
    assert(right@.take(j as int) =~= right@);
    out
}

proof fn lemma_push_has(s: Seq<usize>, x: usize, y: usize)
    ensures
        s.push(x).contains(y) <==> (s.contains(y) || y == x),
{
    if s.contains(y) {
        let i = choose|i: int| 0 <= i < s.len() && s[i] == y;
        assert(s.push(x)[i] == y);
    }
    if y == x {
        assert(s.push(x)[s.len() as int] == y);
    }
    if s.push(x).contains(y) && y != x {
        let i = choose|i: int| 0 <= i < s.push(x).len() && s.push(x)[i] == y;
        assert(s[i] == y);
    }
}

proof fn lemma_taken_has(s: Seq<usize>, i: int, y: usize)
    requires
        0 <= i < s.len(),
    ensures
        s.take(i + 1).contains(y) <==> (s.take(i).contains(y) || y == s[i]),
{
    assert(s.take(i + 1) =~= s.take(i).push(s[i]));
    lemma_push_has(s.take(i), s[i], y);
}

fn sort_range<K: SortKey>(keys: &Vec<K>, from: usize, to: usize) -> (order: Vec<usize>)
    requires
        from <= to <= keys@.len(),
    ensures
        order@.len() == to - from,
        in_order(keys@, order@),
        forall|x: usize| order@.contains(x) <==> from <= x < to,
    decreases to - from,
{
    let mut order: Vec<usize> = Vec::new();
    if from == to {
        return order;
    }
    if to - from == 1 {
        order.push(from);
        assert(order@[0] == from);
        return order;
    }
    let middle: usize = from + (to - from) / 2;
    let left: Vec<usize> = sort_range(keys, from, middle);
    let right: Vec<usize> = sort_range(keys, middle, to);
    proof {
        assert forall|i: int| 0 <= i < left@.len() implies from <= #[trigger] left@[i] < middle by {
            assert(left@.contains(left@[i]));
        }
        assert forall|i: int| 0 <= i < right@.len() implies middle <= #[trigger] right@[i]
            < to by {
            assert(right@.contains(right@[i]));
        }
    }
    merge(keys, &left, &right)
}

/// The stable order of a list of keys.
pub fn stable_order<K: SortKey>(keys: &Vec<K>) -> (order: Vec<usize>)
    ensures
        is_stable_order(keys@, order@),
{
    let order: Vec<usize> = sort_range(keys, 0, keys.len());
    assert forall|i: int| 0 <= i < order@.len() implies #[trigger] order@[i] < keys@.len() by {
        assert(order@.contains(order@[i]));
    }
    order
}

/// Puts things into a given order.
pub fn arranged<T>(items: Vec<T>, order: &Vec<usize>) -> (out: Vec<T>)
    requires
        order@.len() == items@.len(),
        forall|i: int| 0 <= i < order@.len() ==> #[trigger] order@[i] < items@.len(),
        forall|i: int, j: int|
            0 <= i < j < order@.len() ==> #[trigger] order@[i] != #[trigger] order@[j],
    ensures
        out@ == Seq::new(items@.len(), |i: int| items@[order@[i] as int]),
{
    let ghost all = items@;
    let mut slots: Vec<Option<T>> = Vec::new();
    let mut rest: Vec<T> = items;
    // Emptied from the back, so the slots are filled in reverse.
    while rest.len() > 0
        invariant
            rest@ == all.take(rest@.len() as int),
            rest@.len() + slots@.len() == all.len(),
            forall|k: int|
                0 <= k < slots@.len() ==> #[trigger] slots@[k] == Some(all[all.len() - 1 - k]),
        decreases rest@.len(),
    {
        let ghost n = rest@.len() as int;
        let last: Option<T> = rest.pop();
        assert(last == Some(all[n - 1]));
        slots.push(last);
        assert(rest@ =~= all.take(n - 1));
    }
    let count: usize = slots.len();
    let mut out: Vec<T> = Vec::new();
    let mut i: usize = 0;
    while i < count
        invariant
            i <= count,
            count == slots@.len(),
            count == all.len(),
            count == order@.len(),
            out@ == Seq::new(i as nat, |k: int| all[order@[k] as int]),
            forall|k: int| 0 <= k < order@.len() ==> #[trigger] order@[k] < count,
            forall|a: int, b: int|
                0 <= a < b < order@.len() ==> #[trigger] order@[a] != #[trigger] order@[b],
            forall|k: int|
                i <= k < count ==> slots@[count - 1 - #[trigger] order@[k]] == Some(
                    all[order@[k] as int],
                ),
        decreases count - i,
    {
        let at: usize = count - 1 - order[i];
        assert(slots@[at as int] == Some(all[order@[i as int] as int]));
        let item: Option<T> = slots[at].take();
        match item {
            Some(value) => {
                out.push(value);
            },
            None => {
                assert(false);
            },
        }
        i = i + 1;
        assert(out@ =~= Seq::new(i as nat, |k: int| all[order@[k] as int]));
    }
    out
}

/// The places of a stable order are distinct.
pub proof fn lemma_order_distinct<K: SortKey>(keys: Seq<K>, order: Seq<usize>)
    requires
        in_order(keys, order),
    ensures
        forall|i: int, j: int|
            0 <= i < j < order.len() ==> #[trigger] order[i] != #[trigger] order[j],
{
    assert forall|i: int, j: int| 0 <= i < j < order.len() implies #[trigger] order[i]
        != #[trigger] order[j] by {
        assert(before(keys, order[i] as int, order[j] as int));
        lemma_before_total(keys, order[i] as int, order[i] as int);
    }
}

/// Things in the stable order of their keys.
pub open spec fn is_sorted_by<K: SortKey, T>(keys: Seq<K>, items: Seq<T>, out: Seq<T>) -> bool {
    exists|order: Seq<usize>| #[trigger]
        is_stable_order(keys, order) && out == Seq::new(
            items.len(),
            |i: int| items[order[i] as int],
        )
}

/// Sorts things by their keys; things of equal keys keep their order.
pub fn sort_by_keys<K: SortKey, T>(keys: &Vec<K>, items: Vec<T>) -> (out: Vec<T>)
    requires
        keys@.len() == items@.len(),
    ensures
        is_sorted_by(keys@, items@, out@),
        out@.len() == items@.len(),
{
    let order: Vec<usize> = stable_order(keys);
    proof {
        lemma_order_distinct(keys@, order@);
    }
    let ghost all = items@;
    let out: Vec<T> = arranged(items, &order);
    assert(is_stable_order(keys@, order@));
    out
}

/// What a sort leaves is determined by the keys and the things.
pub proof fn lemma_sorted_unique<K: SortKey, T>(
    keys: Seq<K>,
    items: Seq<T>,
    first: Seq<T>,
    second: Seq<T>,
)
    requires
        keys.len() == items.len(),
        is_sorted_by(keys, items, first),
        is_sorted_by(keys, items, second),
    ensures
        first == second,
{
    let a = choose|order: Seq<usize>| #[trigger]
        is_stable_order(keys, order) && first == Seq::new(
            items.len(),
            |i: int| items[order[i] as int],
        );
    let b = choose|order: Seq<usize>| #[trigger]
        is_stable_order(keys, order) && second == Seq::new(
            items.len(),
            |i: int| items[order[i] as int],
        );
    lemma_stable_order_unique(keys, a, b);
}

/// What sorting things by their keys gives.
pub open spec fn sorted<K: SortKey, T>(keys: Seq<K>, items: Seq<T>) -> Seq<T> {
    choose|out: Seq<T>| is_sorted_by(keys, items, out)
}

/// The number of places of an order that come before a place.
spec fn places_before<K: SortKey>(keys: Seq<K>, order: Seq<usize>, place: int) -> int
    decreases order.len(),
{
    if order.len() == 0 || before(keys, order.last() as int, place) {
        order.len() as int
    } else {
        places_before(keys, order.drop_last(), place)
    }
}

proof fn lemma_places_before<K: SortKey>(keys: Seq<K>, order: Seq<usize>, place: int)
    requires
        in_order(keys, order),
        forall|i: int| 0 <= i < order.len() ==> #[trigger] order[i] != place,
    ensures
        ({
            let at = places_before(keys, order, place);
            &&& 0 <= at <= order.len()
            &&& forall|i: int|
                0 <= i < at ==> before(keys, #[trigger] order[i] as int, place)
            &&& forall|i: int|
                at <= i < order.len() ==> before(keys, place, #[trigger] order[i] as int)
        }),
    decreases order.len(),
{
    if order.len() > 0 {
        let last = order.last() as int;
        if before(keys, last, place) {
            assert forall|i: int| 0 <= i < order.len() implies before(
                keys,
                #[trigger] order[i] as int,
                place,
            ) by {
                if i < order.len() - 1 {
                    assert(before(keys, order[i] as int, order[order.len() - 1] as int));
                    lemma_before_transitive(keys, order[i] as int, last, place);
                }
            }
        } else {
            let rest = order.drop_last();
            assert(in_order(keys, rest)) by {
                assert forall|i: int, j: int| 0 <= i < j < rest.len() implies before(
                    keys,
                    #[trigger] rest[i] as int,
                    #[trigger] rest[j] as int,
                ) by {
                    assert(before(keys, order[i] as int, order[j] as int));
                }
            }
            lemma_places_before(keys, rest, place);
            lemma_before_total(keys, last, place);
            let at = places_before(keys, rest, place);
            assert forall|i: int| 0 <= i < at implies before(
                keys,
                #[trigger] order[i] as int,
                place,
            ) by {
                assert(rest[i] == order[i]);
            }
            assert forall|i: int| at <= i < order.len() implies before(
                keys,
                place,
                #[trigger] order[i] as int,
            ) by {
                if i < order.len() - 1 {
                    assert(rest[i] == order[i]);
                }
            }
        }
    }
}

/// The first `n` places can be put in order.
proof fn lemma_order_exists<K: SortKey>(keys: Seq<K>, n: nat) -> (order: Seq<usize>)
    requires
        n <= keys.len() <= usize::MAX,
    ensures
        order.len() == n,
        in_order(keys, order),
        forall|i: int| 0 <= i < order.len() ==> #[trigger] order[i] < n,
        forall|x: usize| x < n ==> order.contains(x),
    decreases n,
{
    if n == 0 {
        Seq::empty()
    } else {
        let rest = lemma_order_exists(keys, (n - 1) as nat);
        let place = (n - 1) as usize;
        lemma_places_before(keys, rest, place as int);
        let at = places_before(keys, rest, place as int);
        let order = rest.insert(at, place);
        assert forall|i: int, j: int| 0 <= i < j < order.len() implies before(
            keys,
            #[trigger] order[i] as int,
            #[trigger] order[j] as int,
        ) by {
            let a = if i < at {
                i
            } else {
                i - 1
            };
            let b = if j < at {
                j
            } else {
                j - 1
            };
            if i == at {
                assert(order[j] == rest[b]);
            } else if j == at {
                assert(order[i] == rest[a]);
            } else {
                assert(before(keys, rest[a] as int, rest[b] as int));
            }
        }
        assert forall|x: usize| x < n implies order.contains(x) by {
            if x == place {
                assert(order[at] == x);
            } else {
                assert(rest.contains(x));
                let k = choose|k: int| 0 <= k < rest.len() && rest[k] == x;
                if k < at {
                    assert(order[k] == x);
                } else {
                    assert(order[k + 1] == x);
                }
            }
        }
        order
    }
}

/// [`sorted`] is the sorted list: there is one, and no other.
pub proof fn lemma_sorted_is_sorted<K: SortKey, T>(keys: Seq<K>, items: Seq<T>)
    requires
        keys.len() == items.len(),
        keys.len() <= usize::MAX,
    ensures
        is_sorted_by(keys, items, sorted(keys, items)),
        sorted(keys, items).len() == items.len(),
{
    let order = lemma_order_exists(keys, keys.len());
    assert(is_stable_order(keys, order));
    let out = Seq::new(items.len(), |i: int| items[order[i] as int]);
    assert(is_sorted_by(keys, items, out));
    let chosen = choose|order: Seq<usize>| #[trigger]
        is_stable_order(keys, order) && sorted(keys, items) == Seq::new(
            items.len(),
            |i: int| items[order[i] as int],
        );
}

/// Sorting things sorts their views.
pub proof fn lemma_sorted_views<K: SortKey, T: View>(keys: Seq<K>, items: Seq<T>, out: Seq<T>)
    requires
        keys.len() == items.len(),
        is_sorted_by(keys, items, out),
    ensures
        is_sorted_by(keys, views::of(items), views::of(out)),
{
    let order = choose|order: Seq<usize>| #[trigger]
        is_stable_order(keys, order) && out == Seq::new(
            items.len(),
            |i: int| items[order[i] as int],
        );
    assert(views::of(out) =~= Seq::new(
        items.len(),
        |i: int| views::of(items)[order[i] as int],
    ));
}

/// What a sort leaves is [`sorted`], for the things and for their views.
pub proof fn lemma_sorted<K: SortKey, T: View>(keys: Seq<K>, items: Seq<T>, out: Seq<T>)
    requires
        keys.len() == items.len(),
        is_sorted_by(keys, items, out),
    ensures
        sorted(keys, items) == out,
        sorted(keys, views::of(items)) == views::of(out),
{
    lemma_sorted_views(keys, items, out);
    lemma_sorted_unique(keys, items, out, sorted(keys, items));
    lemma_sorted_unique(keys, views::of(items), views::of(out), sorted(keys, views::of(items)));
}

/// Two numbers, the first of which counts more.
#[derive(Clone, Copy, Debug, PartialEq, Eq, Structural)]
pub struct PairKey {
    pub first: u64,
    pub second: u64,
}

impl SortKey for PairKey {
    open spec fn le(self, other: Self) -> bool {
        self.first < other.first || (self.first == other.first && self.second <= other.second)
    }

    proof fn total(a: Self, b: Self) {
    }

    proof fn transitive(a: Self, b: Self, c: Self) {
    }

    fn at_most(&self, other: &Self) -> (yes: bool) {
        self.first < other.first || (self.first == other.first && self.second <= other.second)
    }
}

/// A text, compared character by character.
pub struct TextKey {
    pub chars: Vec<char>,
}

/// Whether a text comes no later than another in a dictionary.
pub open spec fn text_le(a: Seq<char>, b: Seq<char>) -> bool
    decreases a.len(),
{
    if a.len() == 0 {
        true
    } else if b.len() == 0 {
        false
    } else if a[0] != b[0] {
        a[0] < b[0]
    } else {
        text_le(a.skip(1), b.skip(1))
    }
}

proof fn lemma_text_total(a: Seq<char>, b: Seq<char>)
    ensures
        text_le(a, b) || text_le(b, a),
    decreases a.len(),
{
    if a.len() > 0 && b.len() > 0 && a[0] == b[0] {
        lemma_text_total(a.skip(1), b.skip(1));
    }
}

proof fn lemma_text_transitive(a: Seq<char>, b: Seq<char>, c: Seq<char>)
    requires
        text_le(a, b),
        text_le(b, c),
    ensures
        text_le(a, c),
    decreases a.len(),
{
    if a.len() > 0 && b.len() > 0 && c.len() > 0 && a[0] == b[0] && b[0] == c[0] {
        lemma_text_transitive(a.skip(1), b.skip(1), c.skip(1));
    }
}

impl SortKey for TextKey {
    open spec fn le(self, other: Self) -> bool {
        text_le(self.chars@, other.chars@)
    }

    proof fn total(a: Self, b: Self) {
        lemma_text_total(a.chars@, b.chars@);
    }

    proof fn transitive(a: Self, b: Self, c: Self) {
        lemma_text_transitive(a.chars@, b.chars@, c.chars@);
    }

    fn at_most(&self, other: &Self) -> (yes: bool) {
        let a: &Vec<char> = &self.chars;
        let b: &Vec<char> = &other.chars;
        let mut i: usize = 0;
        assert(a@.skip(0) =~= a@);
        assert(b@.skip(0) =~= b@);
        while i < a.len()
            invariant
                i <= a@.len(),
                i <= b@.len(),
                text_le(a@, b@) == text_le(a@.skip(i as int), b@.skip(i as int)),
                a@ == self.chars@,
                b@ == other.chars@,
            decreases a@.len() - i,
        {
            if i == b.len() {
                return false;
            }
            if a[i] != b[i] {
                return a[i] < b[i];
            }
            assert(a@.skip(i as int).skip(1) =~= a@.skip(i + 1));
            assert(b@.skip(i as int).skip(1) =~= b@.skip(i + 1));
            i = i + 1;
        }
        true
    }
}

} // verus!
