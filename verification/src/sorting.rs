//! A stable sort.

use crate::order::Order;
use vstd::prelude::*;

verus! {

/// Values that have a place in an order, which their view decides. Different values may share a
/// place.
pub trait Ranked: View + Sized {
    spec fn placed(a: Self::V, b: Self::V) -> Order;

    /// The order is the same from both sides, and what is not behind is never behind in steps.
    proof fn order_is_total(a: Self::V, b: Self::V, c: Self::V)
        ensures
            Self::placed(a, a) == Order::Same,
            Self::placed(b, a) == Self::placed(a, b).flip(),
            Self::placed(a, b) != Order::Greater && Self::placed(b, c) != Order::Greater
                ==> Self::placed(a, c) != Order::Greater,
            Self::placed(a, b) != Order::Greater && Self::placed(b, c) != Order::Greater && (
            Self::placed(a, b) == Order::Less || Self::placed(b, c) == Order::Less)
                ==> Self::placed(a, c) == Order::Less,
    ;

    fn order(&self, other: &Self) -> (order: Order)
        ensures
            order == Self::placed(self@, other@),
    ;
}

pub open spec fn views_of<T: View>(items: Seq<T>) -> Seq<T::V> {
    Seq::new(items.len(), |i: int| items[i]@)
}

/// Whether item `a` belongs ahead of item `b`: by its place, and between equals by its position.
pub open spec fn ahead<T: Ranked>(items: Seq<T::V>, a: int, b: int) -> bool {
    ||| T::placed(items[a], items[b]) == Order::Less
    ||| T::placed(items[a], items[b]) == Order::Same && a < b
}

/// Whether `positions` lists positions of `items` from the one that belongs first to the last.
pub open spec fn ascending<T: Ranked>(items: Seq<T::V>, positions: Seq<usize>) -> bool {
    &&& forall|i: int| 0 <= i < positions.len() ==> 0 <= #[trigger] positions[i] < items.len()
    &&& forall|i: int, j: int|
        #![trigger positions[i], positions[j]]
        0 <= i < j < positions.len() ==> ahead::<T>(
            items,
            positions[i] as int,
            positions[j] as int,
        )
}

/// Whether `sorted` holds the items of `items` in ascending order, each as often as it occurs
/// there, and equals in the order in which they stand there. `positions` says where each comes from.
pub open spec fn is_sorting<T: Ranked>(
    items: Seq<T::V>,
    sorted: Seq<T::V>,
    positions: Seq<usize>,
) -> bool {
    &&& items.len() <= usize::MAX
    &&& positions.len() == items.len()
    &&& sorted.len() == items.len()
    &&& ascending::<T>(items, positions)
    &&& forall|x: usize| x < items.len() ==> #[trigger] positions.contains(x)
    &&& forall|i: int| 0 <= i < sorted.len() ==> #[trigger] sorted[i] == items[positions[i] as int]
}

/// Whether `sorted` is what a stable sort makes of `items`.
pub open spec fn is_sorted_from<T: Ranked>(items: Seq<T::V>, sorted: Seq<T::V>) -> bool {
    exists|positions: Seq<usize>| is_sorting::<T>(items, sorted, positions)
}

proof fn ahead_is_strict<T: Ranked>(items: Seq<T::V>, a: int, b: int, c: int)
    ensures
        !ahead::<T>(items, a, a),
        a != b ==> ahead::<T>(items, a, b) || ahead::<T>(items, b, a),
        ahead::<T>(items, a, b) && ahead::<T>(items, b, c) ==> ahead::<T>(items, a, c),
{
    T::order_is_total(items[a], items[b], items[c]);
    T::order_is_total(items[b], items[a], items[c]);
}

fn merge<T: Ranked>(items: &Vec<T>, left: Vec<usize>, right: Vec<usize>) -> (merged: Vec<usize>)
    requires
        ascending::<T>(views_of(items@), left@),
        ascending::<T>(views_of(items@), right@),
        left@.len() + right@.len() <= usize::MAX,
        forall|i: int, j: int|
            #![trigger left@[i], right@[j]]
            0 <= i < left@.len() && 0 <= j < right@.len() ==> left@[i] < right@[j],
    ensures
        ascending::<T>(views_of(items@), merged@),
        merged@.len() == left@.len() + right@.len(),
        forall|x: usize|
            left@.contains(x) || right@.contains(x) ==> #[trigger] merged@.contains(x),
        forall|x: usize|
            #[trigger] merged@.contains(x) ==> left@.contains(x) || right@.contains(x),
{
    let mut merged: Vec<usize> = Vec::new();
    let mut i: usize = 0;
    let mut j: usize = 0;
    while i < left.len() || j < right.len()
        invariant
            ascending::<T>(views_of(items@), left@),
            ascending::<T>(views_of(items@), right@),
            left@.len() + right@.len() <= usize::MAX,
            forall|i: int, j: int|
                #![trigger left@[i], right@[j]]
                0 <= i < left@.len() && 0 <= j < right@.len() ==> left@[i] < right@[j],
            i <= left@.len(),
            j <= right@.len(),
            merged@.len() == i + j,
            ascending::<T>(views_of(items@), merged@),
            forall|k: int, l: int|
                #![trigger merged@[k], left@[l]]
                0 <= k < merged@.len() && i <= l < left@.len() ==> ahead::<T>(views_of(items@),
                    merged@[k] as int,
                    left@[l] as int,
                ),
            forall|k: int, l: int|
                #![trigger merged@[k], right@[l]]
                0 <= k < merged@.len() && j <= l < right@.len() ==> ahead::<T>(views_of(items@),
                    merged@[k] as int,
                    right@[l] as int,
                ),
            forall|l: int| 0 <= l < i ==> merged@.contains(#[trigger] left@[l]),
            forall|l: int| 0 <= l < j ==> merged@.contains(#[trigger] right@[l]),
            forall|k: int|
                0 <= k < merged@.len() ==> left@.contains(#[trigger] merged@[k]) || right@.contains(
                    merged@[k],
                ),
        decreases left@.len() - i + right@.len() - j,
    {
        let ghost before = merged@;
        let take_left = if j == right.len() {
            true
        } else if i == left.len() {
            false
        } else {
            items[right[j]].order(&items[left[i]]) != Order::Less
        };
        if take_left {
            let next: usize = left[i];
            proof {
                assert forall|l: int| j <= l < right@.len() implies ahead::<T>(views_of(items@),
                    next as int,
                    #[trigger] right@[l] as int,
                ) by {
                    T::order_is_total(
                        items@[right@[j as int] as int]@,
                        items@[next as int]@,
                        items@[next as int]@,
                    );
                    assert(left@[i as int] < right@[j as int]);
                    ahead_is_strict::<T>(views_of(items@), next as int, right@[j as int] as int, right@[l] as int);
                }
            }
            merged.push(next);
            i = i + 1;
        } else {
            let next: usize = right[j];
            proof {
                assert forall|l: int| i <= l < left@.len() implies ahead::<T>(views_of(items@),
                    next as int,
                    #[trigger] left@[l] as int,
                ) by {
                    ahead_is_strict::<T>(views_of(items@), next as int, left@[i as int] as int, left@[l] as int);
                }
            }
            merged.push(next);
            j = j + 1;
        }
        proof {
            let next = merged@.last();
            assert(merged@[before.len() as int] == next);
            assert forall|x: usize| before.contains(x) implies merged@.contains(x) by {
                let k = choose|k: int| 0 <= k < before.len() && before[k] == x;
                assert(merged@[k] == x);
            }
        }
    }
    merged
}

/// The positions `low..high` of `items`, the one that belongs first in front.
fn positions_between<T: Ranked>(items: &Vec<T>, low: usize, high: usize) -> (positions: Vec<usize>)
    requires
        low <= high <= items@.len(),
    ensures
        ascending::<T>(views_of(items@), positions@),
        positions@.len() == high - low,
        forall|x: usize| low <= x < high <==> #[trigger] positions@.contains(x),
    decreases high - low,
{
    if high - low == 0 {
        let positions: Vec<usize> = Vec::new();
        return positions;
    }
    if high - low == 1 {
        let mut positions: Vec<usize> = Vec::new();
        positions.push(low);
        assert(positions@[0] == low);
        return positions;
    }
    let middle: usize = low + (high - low) / 2;
    let left = positions_between(items, low, middle);
    let right = positions_between(items, middle, high);
    proof {
        assert forall|i: int, j: int|
            #![trigger left@[i], right@[j]]
            0 <= i < left@.len() && 0 <= j < right@.len() implies left@[i] < right@[j] by {
            assert(left@.contains(left@[i]));
            assert(right@.contains(right@[j]));
        }
    }
    let ghost (l, r) = (left@, right@);
    let positions = merge(items, left, right);
    assert forall|x: usize| low <= x < high <==> #[trigger] positions@.contains(x) by {
        assert(l.contains(x) <==> low <= x < middle);
        assert(r.contains(x) <==> middle <= x < high);
    }
    positions
}

/// Sorts `items`, keeping equals in the order in which they stand.
pub fn sort<T: Ranked>(items: Vec<T>) -> (sorted: Vec<T>)
    ensures
        is_sorted_from::<T>(views_of(items@), views_of(sorted@)),
{
    let ghost whole = items@;
    let positions = positions_between(&items, 0, items.len());
    let mut slots: Vec<Option<T>> = Vec::new();
    let mut rest: Vec<T> = items;
    // `rest` gives its items up from the back, so the slots are filled back to front.
    let mut backwards: Vec<Option<T>> = Vec::new();
    while rest.len() > 0
        invariant
            rest@.len() + backwards@.len() == whole.len(),
            rest@ == whole.take(rest@.len() as int),
            forall|k: int|
                0 <= k < backwards@.len() ==> #[trigger] backwards@[k] == Some(
                    whole[whole.len() - 1 - k],
                ),
        decreases rest@.len(),
    {
        let last = rest.pop();
        backwards.push(last);
        assert(rest@ =~= whole.take(rest@.len() as int));
    }
    while backwards.len() > 0
        invariant
            slots@.len() + backwards@.len() == whole.len(),
            forall|k: int|
                0 <= k < backwards@.len() ==> #[trigger] backwards@[k] == Some(
                    whole[whole.len() - 1 - k],
                ),
            forall|k: int| 0 <= k < slots@.len() ==> #[trigger] slots@[k] == Some(whole[k]),
        decreases backwards@.len(),
    {
        let slot = backwards.pop();
        match slot {
            Some(slot) => {
                slots.push(slot);
            },
            None => {},
        }
    }
    let mut sorted: Vec<T> = Vec::new();
    let mut i: usize = 0;
    while i < positions.len()
        invariant
            i <= positions@.len(),
            positions@.len() == whole.len(),
            ascending::<T>(views_of(whole), positions@),
            slots@.len() == whole.len(),
            sorted@.len() == i,
            forall|k: int| 0 <= k < i ==> #[trigger] sorted@[k] == whole[positions@[k] as int],
            forall|k: int| i <= k < positions@.len() ==> slots@[#[trigger] positions@[k] as int] == Some(
                whole[positions@[k] as int],
            ),
        decreases positions@.len() - i,
    {
        let at: usize = positions[i];
        assert(slots@[positions@[i as int] as int] == Some(whole[at as int]));
        let item = slots[at].take();
        proof {
            assert forall|k: int| i + 1 <= k < positions@.len() implies slots@[#[trigger] positions@[k] as int]
                == Some(whole[positions@[k] as int]) by {
                ahead_is_strict::<T>(views_of(whole), positions@[i as int] as int, positions@[k] as int, 0);
            }
        }
        match item {
            Some(item) => {
                sorted.push(item);
            },
            None => {},
        }
        i = i + 1;
    }
    assert(is_sorting::<T>(views_of(whole), views_of(sorted@), positions@));
    sorted
}

/// What a stable sort makes is in order, holds what it was made from and nothing else, and is as
/// long.
pub proof fn sorting_orders<T: Ranked>(items: Seq<T::V>, sorted: Seq<T::V>)
    requires
        is_sorted_from::<T>(items, sorted),
    ensures
        sorted.len() == items.len(),
        forall|i: int, j: int|
            0 <= i < j < sorted.len() ==> #[trigger] T::placed(sorted[i], sorted[j])
                != Order::Greater,
        forall|x: T::V| items.contains(x) <==> sorted.contains(x),
{
    let positions = choose|positions: Seq<usize>| is_sorting::<T>(items, sorted, positions);
    assert forall|i: int, j: int| 0 <= i < j < sorted.len() implies #[trigger] T::placed(
        sorted[i],
        sorted[j],
    ) != Order::Greater by {
        assert(ahead::<T>(items, positions[i] as int, positions[j] as int));
    }
    assert forall|x: T::V| items.contains(x) <==> sorted.contains(x) by {
        if items.contains(x) {
            let k = choose|k: int| 0 <= k < items.len() && items[k] == x;
            assert(positions.contains(k as usize));
            let i = choose|i: int| 0 <= i < positions.len() && positions[i] == k as usize;
            assert(sorted[i] == x);
        }
        if sorted.contains(x) {
            let i = choose|i: int| 0 <= i < sorted.len() && sorted[i] == x;
            assert(items[positions[i] as int] == x);
        }
    }
}

/// What a stable sort makes holds every item as often as what it was made from: each comes from a
/// place of its own. Of two that share a place in the order the one that stood first still does.
pub proof fn sorting_moves_items<T: Ranked>(items: Seq<T::V>, sorted: Seq<T::V>) -> (from: Seq<int>)
    requires
        is_sorted_from::<T>(items, sorted),
    ensures
        from.len() == sorted.len(),
        from.len() == items.len(),
        forall|i: int|
            0 <= i < from.len() ==> 0 <= #[trigger] from[i] < items.len() && sorted[i]
                == items[from[i]],
        forall|i: int, j: int|
            #![trigger from[i], from[j]]
            0 <= i < j < from.len() ==> from[i] != from[j] && (T::placed(sorted[i], sorted[j])
                == Order::Same ==> from[i] < from[j]),
{
    let positions = choose|positions: Seq<usize>| is_sorting::<T>(items, sorted, positions);
    let from = Seq::new(positions.len(), |i: int| positions[i] as int);
    assert forall|i: int, j: int|
        #![trigger from[i], from[j]]
        0 <= i < j < from.len() implies from[i] != from[j] && (T::placed(sorted[i], sorted[j])
        == Order::Same ==> from[i] < from[j]) by {
        let a = positions[i] as int;
        let b = positions[j] as int;
        assert(ahead::<T>(items, a, b));
        ahead_is_strict::<T>(items, a, b, a);
        assert(sorted[i] == items[a] && sorted[j] == items[b]);
    }
    from
}

proof fn positions_agree<T: Ranked>(
    items: Seq<T::V>,
    a: Seq<usize>,
    b: Seq<usize>,
    count: nat,
)
    requires
        items.len() <= usize::MAX,
        a.len() == items.len(),
        b.len() == items.len(),
        ascending::<T>(items, a),
        ascending::<T>(items, b),
        forall|x: usize| x < items.len() ==> #[trigger] a.contains(x),
        forall|x: usize| x < items.len() ==> #[trigger] b.contains(x),
        count <= items.len(),
    ensures
        forall|k: int| 0 <= k < count ==> a[k] == b[k],
    decreases count,
{
    if count > 0 {
        let last = count - 1;
        positions_agree::<T>(items, a, b, last as nat);
        if a[last] != b[last] {
            assert(b.contains(a[last]));
            assert(a.contains(b[last]));
            let in_b = choose|k: int| 0 <= k < b.len() && b[k] == a[last];
            let in_a = choose|k: int| 0 <= k < a.len() && a[k] == b[last];
            if in_b < last {
                ahead_is_strict::<T>(items, a[in_b] as int, a[last] as int, 0);
            }
            if in_a < last {
                ahead_is_strict::<T>(items, b[in_a] as int, b[last] as int, 0);
            }
            ahead_is_strict::<T>(items, a[last] as int, b[last] as int, a[last] as int);
        }
    }
}

/// A stable sort can make only one thing of a list.
pub proof fn sorting_is_unique<T: Ranked>(items: Seq<T::V>, one: Seq<T::V>, other: Seq<T::V>)
    requires
        is_sorted_from::<T>(items, one),
        is_sorted_from::<T>(items, other),
    ensures
        one == other,
{
    let a = choose|positions: Seq<usize>| is_sorting::<T>(items, one, positions);
    let b = choose|positions: Seq<usize>| is_sorting::<T>(items, other, positions);
    positions_agree::<T>(items, a, b, items.len());
    assert(one =~= other);
}

} // verus!
