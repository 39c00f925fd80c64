//! Account addresses: 32-byte public-key hashes, compared bytewise.

use vstd::prelude::*;

verus! {

broadcast use vstd::array::group_array_axioms;

/// An account or validator address (32 bytes).
#[derive(Clone, Copy, Debug, PartialEq, Eq)]
pub struct Address {
    pub bytes: [u8; 32],
}

/// Where one address stands relative to another in bytewise order.
#[derive(Clone, Copy, Debug, PartialEq, Eq, Structural)]
pub enum AddressOrder {
    Before,
    Same,
    After,
}

/// `a` and `b` agree on their first `i` bytes and `a` is smaller at byte `i`.
pub open spec fn differs_first_at(a: Address, b: Address, i: int) -> bool {
    &&& 0 <= i < 32
    &&& forall|j: int| 0 <= j < i ==> a.bytes[j] == b.bytes[j]
    &&& a.bytes[i] < b.bytes[i]
}

/// Strict bytewise (lexicographic) order on addresses: the order in which a
/// key/value store walks its keys.
pub open spec fn precedes(a: Address, b: Address) -> bool {
    exists|i: int| #[trigger] differs_first_at(a, b, i)
}

pub proof fn lemma_precedes_irreflexive(a: Address)
    ensures
        !precedes(a, a),
{
}

pub proof fn lemma_precedes_asymmetric(a: Address, b: Address)
    requires
        precedes(a, b),
    ensures
        !precedes(b, a),
        a != b,
{
    let i = choose|i: int| differs_first_at(a, b, i);
    if precedes(b, a) {
        let j = choose|j: int| differs_first_at(b, a, j);
        if i < j {
            assert(b.bytes[i] == a.bytes[i]);
        } else if j < i {
            assert(a.bytes[j] == b.bytes[j]);
        }
    }
}

pub proof fn lemma_precedes_transitive(a: Address, b: Address, c: Address)
    requires
        precedes(a, b),
        precedes(b, c),
    ensures
        precedes(a, c),
{
    let i = choose|i: int| differs_first_at(a, b, i);
    let j = choose|j: int| differs_first_at(b, c, j);
    if i <= j {
        assert(differs_first_at(a, c, i));
    } else {
        assert(differs_first_at(a, c, j));
    }
}

impl Address {
    pub fn new(bytes: [u8; 32]) -> (a: Address)
        ensures
            a.bytes == bytes,
    {
        Address { bytes }
    }

    /// Whether two addresses are the same.
    pub fn same(&self, other: &Address) -> (r: bool)
        ensures
            r == (*self == *other),
    {
        let mut i: usize = 0;
        while i < 32
            invariant
                i <= 32,
                forall|j: int| 0 <= j < i ==> self.bytes[j] == other.bytes[j],
            decreases 32 - i,
        {
            if self.bytes[i] != other.bytes[i] {
                return false;
            }
            i = i + 1;
        }
        assert(self.bytes =~= other.bytes);
        true
    }

    /// Compares two addresses bytewise.
    pub fn compare_to(&self, other: &Address) -> (r: AddressOrder)
        ensures
            (r == AddressOrder::Before) == precedes(*self, *other),
            (r == AddressOrder::Same) == (*self == *other),
            (r == AddressOrder::After) == precedes(*other, *self),
    {
        let mut i: usize = 0;
        while i < 32
            invariant
                i <= 32,
                forall|j: int| 0 <= j < i ==> self.bytes[j] == other.bytes[j],
            decreases 32 - i,
        {
            let x = self.bytes[i];
            let y = other.bytes[i];
            if x < y {
                proof {
                    assert(differs_first_at(*self, *other, i as int));
                    lemma_precedes_asymmetric(*self, *other);
                }
                return AddressOrder::Before;
            }
            if y < x {
                proof {
                    assert(differs_first_at(*other, *self, i as int));
                    lemma_precedes_asymmetric(*other, *self);
                }
                return AddressOrder::After;
            }
            i = i + 1;
        }
        assert(self.bytes =~= other.bytes);
        proof {
            lemma_precedes_irreflexive(*self);
        }
        AddressOrder::Same
    }
}

} // verus!
