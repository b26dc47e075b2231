//! Sets of paths. Two paths are the same member when they have the same components.

use crate::order;
use crate::order::Order;
use crate::paths;
use crate::paths::Part;
use std::path::PathBuf;
use vstd::prelude::*;

verus! {

/// A set of paths, kept in path order.
pub struct PathSet {
    members: Vec<Vec<Part>>,
}

impl PathSet {
    /// The members in the order in which they are kept.
    pub closed spec fn listed(self) -> Seq<Seq<(u8, Seq<u8>)>> {
        Seq::new(self.members@.len(), |i: int| order::parts_view(self.members@[i]@))
    }

    /// The members are strictly ascending, so that none occurs twice.
    pub closed spec fn wf(self) -> bool {
        forall|i: int, j: int|
            0 <= i < j < self.listed().len() ==> #[trigger] order::parts_order(
                self.listed()[i],
                self.listed()[j],
            ) == Order::Less
    }

    pub fn new() -> (set: PathSet)
        ensures
            set.wf(),
            set@ == Set::<Seq<(u8, Seq<u8>)>>::empty(),
    {
        let set = PathSet { members: Vec::new() };
        assert(set@ =~= Set::<Seq<(u8, Seq<u8>)>>::empty());
        set
    }

    /// Where `parts` is kept, or where it belongs.
    fn place(&self, parts: &Vec<Part>) -> (found: Result<usize, usize>)
        requires
            self.wf(),
        ensures
            found matches Ok(at) ==> at < self.members.len() && self.listed()[at as int]
                == order::parts_view(parts@),
            found matches Err(at) ==> {
                &&& at <= self.members.len()
                &&& forall|i: int|
                    0 <= i < at ==> order::parts_order(
                        #[trigger] self.listed()[i],
                        order::parts_view(parts@),
                    ) == Order::Less
                &&& forall|i: int|
                    at <= i < self.members.len() ==> order::parts_order(
                        #[trigger] self.listed()[i],
                        order::parts_view(parts@),
                    ) == Order::Greater
            },
    {
        let ghost key = order::parts_view(parts@);
        let mut low: usize = 0;
        let mut high: usize = self.members.len();
        while low < high
            invariant
                self.wf(),
                key == order::parts_view(parts@),
                low <= high <= self.members.len(),
                forall|i: int|
                    0 <= i < low ==> order::parts_order(#[trigger] self.listed()[i], key)
                        == Order::Less,
                forall|i: int|
                    high <= i < self.members.len() ==> order::parts_order(
                        #[trigger] self.listed()[i],
                        key,
                    ) == Order::Greater,
            decreases high - low,
        {
            let middle: usize = low + (high - low) / 2;
            assert(self.listed()[middle as int] == order::parts_view(self.members@[middle as int]@));
            match order::order_parts(&self.members[middle], parts) {
                Order::Same => {
                    proof {
                        order::parts_order_is_antisymmetric(self.listed()[middle as int], key);
                    }
                    return Ok(middle);
                },
                Order::Less => {
                    assert forall|i: int| 0 <= i < middle + 1 implies order::parts_order(
                        #[trigger] self.listed()[i],
                        key,
                    ) == Order::Less by {
                        if i < middle {
                            assert(order::parts_order(self.listed()[i], self.listed()[middle as int])
                                == Order::Less);
                            order::parts_order_is_transitive(
                                self.listed()[i],
                                self.listed()[middle as int],
                                key,
                            );
                        }
                    }
                    low = middle + 1;
                },
                Order::Greater => {
                    assert forall|i: int| middle <= i < self.members.len() implies order::parts_order(
                        #[trigger] self.listed()[i],
                        key,
                    ) == Order::Greater by {
                        order::parts_order_is_antisymmetric(self.listed()[middle as int], key);
                        order::parts_order_is_antisymmetric(self.listed()[i], key);
                        if i > middle {
                            assert(order::parts_order(self.listed()[middle as int], self.listed()[i])
                                == Order::Less);
                            order::parts_order_is_transitive(
                                key,
                                self.listed()[middle as int],
                                self.listed()[i],
                            );
                        }
                    }
                    high = middle;
                },
            }
        }
        Err(low)
    }

    /// Adds a path, and says whether it was new.
    pub fn insert(&mut self, path: &PathBuf) -> (fresh: bool)
        requires
            old(self).wf(),
        ensures
            final(self).wf(),
            final(self)@ == old(self)@.insert(paths::path_parts(*path)),
            fresh == !old(self)@.contains(paths::path_parts(*path)),
    {
        let parts: Vec<Part> = paths::components(path);
        let ghost key = order::parts_view(parts@);
        let ghost before = self.listed();
        match self.place(&parts) {
            Ok(at) => {
                assert(before[at as int] == key);
                assert(self@ =~= self@.insert(key));
                false
            },
            Err(at) => {
                proof {
                    if before.contains(key) {
                        let i = choose|i: int| 0 <= i < before.len() && before[i] == key;
                        order::parts_order_is_antisymmetric(before[i], key);
                        assert(false);
                    }
                }
                self.members.insert(at, parts);
                proof {
                    assert(self.listed() =~= before.insert(at as int, key));
                    lemma_insert(before, at as int, key);
                }
                true
            },
        }
    }
}

impl View for PathSet {
    type V = Set<Seq<(u8, Seq<u8>)>>;

    /// The members, each by its components.
    closed spec fn view(&self) -> Set<Seq<(u8, Seq<u8>)>> {
        self.listed().to_set()
    }
}

/// An ascending list stays ascending when a new member goes between the smaller and the larger ones.
proof fn lemma_insert(list: Seq<Seq<(u8, Seq<u8>)>>, at: int, key: Seq<(u8, Seq<u8>)>)
    requires
        0 <= at <= list.len(),
        forall|i: int, j: int|
            0 <= i < j < list.len() ==> #[trigger] order::parts_order(list[i], list[j])
                == Order::Less,
        forall|i: int| 0 <= i < at ==> order::parts_order(#[trigger] list[i], key) == Order::Less,
        forall|i: int|
            at <= i < list.len() ==> order::parts_order(#[trigger] list[i], key) == Order::Greater,
    ensures
        forall|i: int, j: int|
            0 <= i < j < list.len() + 1 ==> #[trigger] order::parts_order(
                list.insert(at, key)[i],
                list.insert(at, key)[j],
            ) == Order::Less,
        list.insert(at, key).to_set() == list.to_set().insert(key),
{
    let longer = list.insert(at, key);
    assert forall|i: int, j: int| 0 <= i < j < longer.len() implies #[trigger] order::parts_order(
        longer[i],
        longer[j],
    ) == Order::Less by {
        let p = if i < at {
            i
        } else {
            i - 1
        };
        let q = if j < at {
            j
        } else {
            j - 1
        };
        if i == at {
            order::parts_order_is_antisymmetric(list[q], key);
        } else if j != at {
            assert(order::parts_order(list[p], list[q]) == Order::Less);
        }
    }
    assert forall|x: Seq<(u8, Seq<u8>)>| longer.to_set().contains(x) <==> list.to_set().insert(
        key,
    ).contains(x) by {
        if list.contains(x) {
            let i = choose|i: int| 0 <= i < list.len() && list[i] == x;
            if i < at {
                assert(longer[i] == x);
            } else {
                assert(longer[i + 1] == x);
            }
        }
        assert(longer[at] == key);
        if longer.contains(x) && x != key {
            let i = choose|i: int| 0 <= i < longer.len() && longer[i] == x;
            if i < at {
                assert(list[i] == x);
            } else {
                assert(list[i - 1] == x);
            }
        }
    }
    assert(longer.to_set() =~= list.to_set().insert(key));
}

} // verus!
