//! The order of paths: component by component, and within a component byte by byte.

use crate::paths::Part;
use vstd::prelude::*;

verus! {

/// How a value stands to another.
#[derive(Clone, Copy, Debug, PartialEq, Eq, Structural)]
pub enum Order {
    Less,
    Same,
    Greater,
}

impl Order {
    /// The order seen from the other side.
    pub open spec fn flip(self) -> Order {
        match self {
            Order::Less => Order::Greater,
            Order::Same => Order::Same,
            Order::Greater => Order::Less,
        }
    }
}

/// The dictionary order of byte sequences.
pub open spec fn bytes_order(a: Seq<u8>, b: Seq<u8>) -> Order
    decreases a.len(),
{
    if a.len() == 0 {
        if b.len() == 0 {
            Order::Same
        } else {
            Order::Less
        }
    } else if b.len() == 0 {
        Order::Greater
    } else if a[0] < b[0] {
        Order::Less
    } else if a[0] > b[0] {
        Order::Greater
    } else {
        bytes_order(a.drop_first(), b.drop_first())
    }
}

/// Components are ordered by rank, and by text where the ranks agree.
pub open spec fn part_order(a: (u8, Seq<u8>), b: (u8, Seq<u8>)) -> Order {
    if a.0 < b.0 {
        Order::Less
    } else if a.0 > b.0 {
        Order::Greater
    } else {
        bytes_order(a.1, b.1)
    }
}

/// The dictionary order of component sequences.
pub open spec fn parts_order(a: Seq<(u8, Seq<u8>)>, b: Seq<(u8, Seq<u8>)>) -> Order
    decreases a.len(),
{
    if a.len() == 0 {
        if b.len() == 0 {
            Order::Same
        } else {
            Order::Less
        }
    } else if b.len() == 0 {
        Order::Greater
    } else if part_order(a[0], b[0]) != Order::Same {
        part_order(a[0], b[0])
    } else {
        parts_order(a.drop_first(), b.drop_first())
    }
}

/// Byte sequences are in the same place exactly when they are equal, and seen from the other side
/// the order is flipped.
pub proof fn bytes_order_is_antisymmetric(a: Seq<u8>, b: Seq<u8>)
    ensures
        bytes_order(a, b) == Order::Same <==> a == b,
        bytes_order(b, a) == bytes_order(a, b).flip(),
    decreases a.len(),
{
    if a.len() > 0 && b.len() > 0 && a[0] == b[0] {
        bytes_order_is_antisymmetric(a.drop_first(), b.drop_first());
        assert(a =~= seq![a[0]] + a.drop_first());
        assert(b =~= seq![b[0]] + b.drop_first());
    } else {
        assert(bytes_order(a, b) == Order::Same ==> a =~= b);
    }
}

/// What comes before what comes before a third comes before the third.
pub proof fn bytes_order_is_transitive(a: Seq<u8>, b: Seq<u8>, c: Seq<u8>)
    requires
        bytes_order(a, b) != Order::Greater,
        bytes_order(b, c) != Order::Greater,
    ensures
        bytes_order(a, c) != Order::Greater,
        bytes_order(a, b) == Order::Less || bytes_order(b, c) == Order::Less ==> bytes_order(a, c)
            == Order::Less,
    decreases a.len(),
{
    if a.len() > 0 && b.len() > 0 && c.len() > 0 && a[0] == b[0] && b[0] == c[0] {
        bytes_order_is_transitive(a.drop_first(), b.drop_first(), c.drop_first());
    }
}

proof fn part_order_is_antisymmetric(a: (u8, Seq<u8>), b: (u8, Seq<u8>))
    ensures
        part_order(a, b) == Order::Same <==> a == b,
        part_order(b, a) == part_order(a, b).flip(),
{
    bytes_order_is_antisymmetric(a.1, b.1);
}

proof fn part_order_is_transitive(a: (u8, Seq<u8>), b: (u8, Seq<u8>), c: (u8, Seq<u8>))
    requires
        part_order(a, b) != Order::Greater,
        part_order(b, c) != Order::Greater,
    ensures
        part_order(a, c) != Order::Greater,
        part_order(a, b) == Order::Less || part_order(b, c) == Order::Less ==> part_order(a, c)
            == Order::Less,
{
    if a.0 == b.0 && b.0 == c.0 {
        bytes_order_is_transitive(a.1, b.1, c.1);
    }
}

/// Component sequences are in the same place exactly when they are equal, and seen from the other
/// side the order is flipped.
pub proof fn parts_order_is_antisymmetric(a: Seq<(u8, Seq<u8>)>, b: Seq<(u8, Seq<u8>)>)
    ensures
        parts_order(a, b) == Order::Same <==> a == b,
        parts_order(b, a) == parts_order(a, b).flip(),
    decreases a.len(),
{
    if a.len() > 0 && b.len() > 0 {
        part_order_is_antisymmetric(a[0], b[0]);
        parts_order_is_antisymmetric(a.drop_first(), b.drop_first());
        assert(a =~= seq![a[0]] + a.drop_first());
        assert(b =~= seq![b[0]] + b.drop_first());
    } else {
        assert(parts_order(a, b) == Order::Same ==> a =~= b);
    }
}

/// What comes before what comes before a third comes before the third.
pub proof fn parts_order_is_transitive(
    a: Seq<(u8, Seq<u8>)>,
    b: Seq<(u8, Seq<u8>)>,
    c: Seq<(u8, Seq<u8>)>,
)
    requires
        parts_order(a, b) != Order::Greater,
        parts_order(b, c) != Order::Greater,
    ensures
        parts_order(a, c) != Order::Greater,
        parts_order(a, b) == Order::Less || parts_order(b, c) == Order::Less ==> parts_order(a, c)
            == Order::Less,
    decreases a.len(),
{
    if a.len() > 0 && b.len() > 0 && c.len() > 0 {
        part_order_is_transitive(a[0], b[0], c[0]);
        part_order_is_antisymmetric(a[0], b[0]);
        part_order_is_antisymmetric(b[0], c[0]);
        part_order_is_antisymmetric(a[0], c[0]);
        if a[0] == b[0] && b[0] == c[0] {
            parts_order_is_transitive(a.drop_first(), b.drop_first(), c.drop_first());
        }
    }
}

/// Whether two byte sequences agree in front of a position, and the first ends there and the second
/// does not, or holds the smaller byte there.
pub open spec fn bytes_part_at(a: Seq<u8>, b: Seq<u8>, at: int) -> bool {
    &&& 0 <= at <= a.len()
    &&& at < b.len()
    &&& forall|i: int| 0 <= i < at ==> a[i] == b[i]
    &&& at == a.len() || a[at] < b[at]
}

/// Whether two sequences of components agree in front of a position, and the first ends there and
/// the second does not, or holds the smaller component there: that of lower rank, and of two of the
/// same rank the one whose text parts from the other downwards.
pub open spec fn parts_part_at(a: Seq<(u8, Seq<u8>)>, b: Seq<(u8, Seq<u8>)>, at: int) -> bool {
    &&& 0 <= at <= a.len()
    &&& at < b.len()
    &&& forall|i: int| 0 <= i < at ==> a[i] == b[i]
    &&& at == a.len() || a[at].0 < b[at].0 || (a[at].0 == b[at].0 && exists|k: int|
        bytes_part_at(a[at].1, b[at].1, k))
}

/// One byte sequence comes before another exactly where the two part downwards.
pub proof fn bytes_order_is_by_first_difference(a: Seq<u8>, b: Seq<u8>)
    ensures
        bytes_order(a, b) == Order::Less <==> exists|at: int| bytes_part_at(a, b, at),
    decreases a.len(),
{
    if a.len() == 0 {
        if b.len() > 0 {
            assert(bytes_part_at(a, b, 0));
        }
    } else if b.len() > 0 {
        if a[0] < b[0] {
            assert(bytes_part_at(a, b, 0));
        } else if a[0] == b[0] {
            let x = a.drop_first();
            let y = b.drop_first();
            bytes_order_is_by_first_difference(x, y);
            if exists|at: int| bytes_part_at(x, y, at) {
                let at = choose|at: int| bytes_part_at(x, y, at);
                assert forall|i: int| 0 <= i < at + 1 implies a[i] == b[i] by {
                    if i > 0 {
                        assert(x[i - 1] == y[i - 1]);
                    }
                }
                assert(bytes_part_at(a, b, at + 1));
            }
            if exists|at: int| bytes_part_at(a, b, at) {
                let at = choose|at: int| bytes_part_at(a, b, at);
                assert(at > 0);
                assert(bytes_part_at(x, y, at - 1));
            }
        } else {
            assert forall|at: int| !bytes_part_at(a, b, at) by {
                if bytes_part_at(a, b, at) {
                    if at > 0 {
                        assert(a[0] == b[0]);
                    }
                }
            }
        }
    }
}

/// One path comes before another exactly where the two part downwards.
pub proof fn parts_order_is_by_first_difference(a: Seq<(u8, Seq<u8>)>, b: Seq<(u8, Seq<u8>)>)
    ensures
        parts_order(a, b) == Order::Less <==> exists|at: int| parts_part_at(a, b, at),
    decreases a.len(),
{
    if a.len() == 0 {
        if b.len() > 0 {
            assert(parts_part_at(a, b, 0));
        }
    } else if b.len() > 0 {
        part_order_is_antisymmetric(a[0], b[0]);
        bytes_order_is_by_first_difference(a[0].1, b[0].1);
        if part_order(a[0], b[0]) == Order::Less {
            assert(parts_part_at(a, b, 0));
        } else if a[0] == b[0] {
            let x = a.drop_first();
            let y = b.drop_first();
            parts_order_is_by_first_difference(x, y);
            if exists|at: int| parts_part_at(x, y, at) {
                let at = choose|at: int| parts_part_at(x, y, at);
                assert forall|i: int| 0 <= i < at + 1 implies a[i] == b[i] by {
                    if i > 0 {
                        assert(x[i - 1] == y[i - 1]);
                    }
                }
                assert(parts_part_at(a, b, at + 1));
            }
            if exists|at: int| parts_part_at(a, b, at) {
                let at = choose|at: int| parts_part_at(a, b, at);
                assert(at > 0);
                assert(parts_part_at(x, y, at - 1));
            }
        } else {
            assert forall|at: int| !parts_part_at(a, b, at) by {
                if parts_part_at(a, b, at) {
                    if at > 0 {
                        assert(a[0] == b[0]);
                    }
                }
            }
        }
    }
}

pub open spec fn parts_view(parts: Seq<Part>) -> Seq<(u8, Seq<u8>)> {
    parts.map_values(|part: Part| part@)
}

/// Orders two byte strings.
pub fn order_bytes(a: &Vec<u8>, b: &Vec<u8>) -> (order: Order)
    ensures
        order == bytes_order(a@, b@),
{
    let mut i: usize = 0;
    assert(a@.skip(0) =~= a@);
    assert(b@.skip(0) =~= b@);
    while i < a.len() && i < b.len()
        invariant
            i <= a.len(),
            i <= b.len(),
            bytes_order(a@, b@) == bytes_order(a@.skip(i as int), b@.skip(i as int)),
        decreases a.len() - i,
    {
        if a[i] < b[i] {
            return Order::Less;
        }
        if a[i] > b[i] {
            return Order::Greater;
        }
        assert(a@.skip(i as int).drop_first() =~= a@.skip(i + 1));
        assert(b@.skip(i as int).drop_first() =~= b@.skip(i + 1));
        i = i + 1;
    }
    if i < b.len() {
        Order::Less
    } else if i < a.len() {
        Order::Greater
    } else {
        Order::Same
    }
}

/// Orders two paths by their components.
pub fn order_parts(a: &Vec<Part>, b: &Vec<Part>) -> (order: Order)
    ensures
        order == parts_order(parts_view(a@), parts_view(b@)),
{
    let mut i: usize = 0;
    let ghost x = parts_view(a@);
    let ghost y = parts_view(b@);
    assert(x.skip(0) =~= x);
    assert(y.skip(0) =~= y);
    while i < a.len() && i < b.len()
        invariant
            x == parts_view(a@),
            y == parts_view(b@),
            i <= a.len(),
            i <= b.len(),
            parts_order(x, y) == parts_order(x.skip(i as int), y.skip(i as int)),
        decreases a.len() - i,
    {
        assert(x.skip(i as int)[0] == a@[i as int]@);
        assert(y.skip(i as int)[0] == b@[i as int]@);
        if a[i].rank < b[i].rank {
            return Order::Less;
        }
        if a[i].rank > b[i].rank {
            return Order::Greater;
        }
        let order = order_bytes(&a[i].text, &b[i].text);
        if order != Order::Same {
            return order;
        }
        assert(x.skip(i as int).drop_first() =~= x.skip(i + 1));
        assert(y.skip(i as int).drop_first() =~= y.skip(i + 1));
        i = i + 1;
    }
    if i < b.len() {
        Order::Less
    } else if i < a.len() {
        Order::Greater
    } else {
        Order::Same
    }
}

} // verus!
