//! The address directory: which local descriptor stands for which global
//! address. Descriptors are handed out from 1 upward, one for each address
//! in the order in which the addresses were first seen, and none is ever
//! taken back.

use std::collections::HashMap;
use vstd::prelude::*;

verus! {

/// The most addresses a directory holds: descriptors are positive `i32`s.
pub const MAX_DESCRIPTORS: usize = 0x7fff_ffff;

/// The address that descriptor `d` stands for, where `dir` lists the
/// addresses in the order of their descriptors.
pub open spec fn address_of(dir: Seq<u64>, d: int) -> Option<u64> {
    if 1 <= d <= dir.len() {
        Some(dir[d - 1])
    } else {
        None
    }
}

/// The descriptor of `address`.
pub open spec fn descriptor_of(dir: Seq<u64>, address: u64) -> Option<int> {
    if dir.contains(address) {
        Some(dir.index_of(address) + 1)
    } else {
        None
    }
}

/// The directory once `address` has a descriptor: unchanged where it had
/// one, longer by `address` where it had none.
pub open spec fn registered(dir: Seq<u64>, address: u64) -> Seq<u64> {
    if dir.contains(address) {
        dir
    } else {
        dir.push(address)
    }
}

/// What holds of every directory: no address has two descriptors, and the
/// descriptors fit in an `i32`.
pub open spec fn well_formed(dir: Seq<u64>) -> bool {
    dir.no_duplicates() && dir.len() <= MAX_DESCRIPTORS
}

/// An address has descriptor `d` exactly when `d` stands for that address.
pub proof fn lemma_bijection(dir: Seq<u64>, address: u64, d: int)
    requires
        dir.no_duplicates(),
    ensures
        descriptor_of(dir, address) == Some(d) <==> address_of(dir, d) == Some(address),
{
    if dir.contains(address) {
        let i = dir.index_of(address);
        assert(dir[i] == address);
    }
    if address_of(dir, d) == Some(address) {
        assert(dir[d - 1] == address);
        assert(dir.contains(address));
    }
}

/// Two addresses share a descriptor only if they are the same address.
pub proof fn lemma_descriptors_distinct(dir: Seq<u64>, a: u64, b: u64)
    requires
        dir.no_duplicates(),
        descriptor_of(dir, a) is Some,
        descriptor_of(dir, a) == descriptor_of(dir, b),
    ensures
        a == b,
{
    lemma_bijection(dir, a, descriptor_of(dir, a).unwrap());
    lemma_bijection(dir, b, descriptor_of(dir, a).unwrap());
}

/// Registering keeps a directory well formed as long as it has room, gives
/// the address a descriptor that stands for it, gives the same descriptor
/// when asked again, and leaves every earlier descriptor as it was.
pub proof fn lemma_registered(dir: Seq<u64>, address: u64)
    requires
        dir.no_duplicates(),
    ensures
        registered(dir, address).no_duplicates(),
        descriptor_of(registered(dir, address), address) is Some,
        address_of(
            registered(dir, address),
            descriptor_of(registered(dir, address), address).unwrap(),
        ) == Some(address),
        registered(registered(dir, address), address) == registered(dir, address),
        forall|other: u64| #[trigger]
            dir.contains(other) ==> descriptor_of(registered(dir, address), other) == descriptor_of(
                dir,
                other,
            ),
        forall|d: int|
            1 <= d <= dir.len() ==> #[trigger] address_of(registered(dir, address), d)
                == address_of(dir, d),
{
    let next = registered(dir, address);
    if !dir.contains(address) {
        assert(next[dir.len() as int] == address);
        assert(next.contains(address));
        assert forall|i: int, j: int|
            0 <= i < next.len() && 0 <= j < next.len() && i != j implies next[i] != next[j] by {
            if i == dir.len() {
                assert(dir.contains(next[j])) by {
                    assert(dir[j] == next[j]);
                }
            } else if j == dir.len() {
                assert(dir.contains(next[i])) by {
                    assert(dir[i] == next[i]);
                }
            }
        }
    }
    assert(next.no_duplicates());
    lemma_bijection(next, address, descriptor_of(next, address).unwrap());
    assert forall|other: u64| #[trigger] dir.contains(other) implies descriptor_of(next, other)
        == descriptor_of(dir, other) by {
        let i = dir.index_of(other);
        assert(next[i] == other);
        assert(next.contains(other));
        lemma_bijection(next, other, i + 1);
    }
}

/// The descriptors and the addresses they stand for.
pub struct AddressDirectory {
    addresses: Vec<u64>,
    descriptors: HashMap<u64, i32>,
}

impl View for AddressDirectory {
    type V = Seq<u64>;

    /// The addresses in the order of their descriptors: descriptor `d`
    /// stands for the address at index `d - 1`.
    closed spec fn view(&self) -> Seq<u64> {
        self.addresses@
    }
}

impl AddressDirectory {
    #[verifier::type_invariant]
    spec fn inv(self) -> bool {
        &&& well_formed(self.addresses@)
        &&& forall|a: u64| #[trigger]
            self.descriptors@.contains_key(a) <==> self.addresses@.contains(a)
        &&& forall|i: int|
            0 <= i < self.addresses@.len() ==> #[trigger] self.descriptors@[self.addresses@[i]]
                == i + 1
    }

    /// The directory that knows no address.
    pub fn new() -> (dir: AddressDirectory)
        ensures
            dir@ == Seq::<u64>::empty(),
    {
        AddressDirectory { addresses: Vec::new(), descriptors: HashMap::new() }
    }

    /// How many descriptors have been handed out; the last one is this
    /// number.
    pub fn len(&self) -> (n: usize)
        ensures
            n == self@.len(),
            well_formed(self@),
    {
        proof {
            use_type_invariant(self);
        }
        self.addresses.len()
    }

    /// The address that `descriptor` stands for.
    pub fn get_value(&self, descriptor: i32) -> (r: Option<u64>)
        ensures
            r == address_of(self@, descriptor as int),
            well_formed(self@),
    {
        proof {
            use_type_invariant(self);
        }
        if descriptor >= 1 && descriptor as usize <= self.addresses.len() {
            Some(self.addresses[descriptor as usize - 1])
        } else {
            None
        }
    }

    /// The descriptor of `address`.
    pub fn get_key(&self, address: u64) -> (r: Option<i32>)
        ensures
            match r {
                Some(d) => descriptor_of(self@, address) == Some(d as int),
                None => descriptor_of(self@, address) is None,
            },
            well_formed(self@),
    {
        proof {
            use_type_invariant(self);
        }
        match self.descriptors.get(&address) {
            Some(d) => {
                proof {
                    let i = self.addresses@.index_of(address);
                    assert(self.addresses@[i] == address);
                }
                Some(*d)
            },
            None => None,
        }
    }

    /// Gives `address` a descriptor if it has none, and returns its
    /// descriptor. `None`, with nothing changed, exactly when the address is
    /// new and every descriptor is taken.
    pub fn add_address(&mut self, address: u64) -> (r: Option<i32>)
        ensures
            well_formed(old(self)@),
            well_formed(final(self)@),
            match r {
                Some(d) => {
                    &&& final(self)@ == registered(old(self)@, address)
                    &&& descriptor_of(final(self)@, address) == Some(d as int)
                    &&& final(self)@.len() <= MAX_DESCRIPTORS
                },
                None => {
                    &&& final(self)@ == old(self)@
                    &&& !old(self)@.contains(address)
                    &&& old(self)@.len() == MAX_DESCRIPTORS
                },
            },
    {
        proof {
            use_type_invariant(&*self);
            lemma_registered(self@, address);
        }
        if let Some(d) = self.get_key(address) {
            return Some(d);
        }
        if self.addresses.len() >= MAX_DESCRIPTORS {
            return None;
        }
        let mut taken = AddressDirectory::new();
        core::mem::swap(self, &mut taken);
        let AddressDirectory { mut addresses, mut descriptors } = taken;
        let d: i32 = (addresses.len() + 1) as i32;
        addresses.push(address);
        descriptors.insert(address, d);
        proof {
            let next = addresses@;
            assert(next == old(self)@.push(address));
            assert(next[next.len() - 1] == address);
            assert forall|a: u64| #[trigger]
                descriptors@.contains_key(a) <==> next.contains(a) by {
                if a != address && old(self)@.contains(a) {
                    let i = old(self)@.index_of(a);
                    assert(next[i] == a);
                }
            }
            assert forall|i: int| 0 <= i < next.len() implies #[trigger] descriptors@[next[i]]
                == i + 1 by {
                if i < next.len() - 1 {
                    assert(old(self)@[i] == next[i]);
                    assert(old(self)@.contains(next[i]));
                }
            }
            lemma_bijection(next, address, d as int);
        }
        *self = AddressDirectory { addresses, descriptors };
        Some(d)
    }
}

} // verus!
