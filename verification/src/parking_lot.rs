//! Occupancy containers: capacity-bounded collections of spots with
//! unordered removal by position.

use vstd::multiset::Multiset;
use vstd::prelude::*;
use vstd::seq_lib::{to_multiset_remove, to_multiset_update};
use vstd::slice::slice_subrange;

verus! {

/// A parked car, known by one timestamp.
pub type Spot = u32;

/// The largest capacity of a lot backed by a fixed-size buffer.
pub const MAX_CAPACITY: usize = 512;

/// The sequence left when position `i` of `s` is vacated by moving the last
/// element into it.
pub open spec fn swap_removed(s: Seq<Spot>, i: int) -> Seq<Spot> {
    s.update(i, s.last()).drop_last()
}

/// Vacating a position by moving the last element into it takes exactly one
/// occurrence of the vacated element out of the multiset of elements, and
/// leaves every earlier position as it was.
pub proof fn lemma_swap_removed(s: Seq<Spot>, i: int)
    requires
        0 <= i < s.len(),
    ensures
        swap_removed(s, i).len() == s.len() - 1,
        swap_removed(s, i).to_multiset() == s.to_multiset().remove(s[i]),
        forall|j: int| 0 <= j < i ==> swap_removed(s, i)[j] == s[j],
        forall|j: int|
            0 <= j < s.len() - 1 && j != i ==> (#[trigger] swap_removed(s, i)[j]) == s[j],
        i < s.len() - 1 ==> swap_removed(s, i)[i] == s.last(),
{
    let moved = s.update(i, s.last());
    let n = s.len() - 1;
    assert(moved.drop_last() =~= moved.remove(n));
    to_multiset_update(s, i, s.last());
    to_multiset_remove(moved, n);
    assert(moved[n] == s.last());
    assert(s.to_multiset().insert(s.last()).remove(s[i]).remove(s.last()) =~= s.to_multiset().remove(
        s[i],
    )) by {
        s.to_multiset_ensures();
        assert(s.contains(s[i]));
        assert(s.contains(s.last()));
    }
}

/// A collection of spots bounded by a capacity. Its view is the sequence of
/// occupants by position; positions may change when a spot is removed.
pub trait ParkingLot: View<V = Seq<Spot>> + Sized {
    /// The most occupants the lot can hold.
    spec fn capacity(&self) -> nat;

    /// The lot's invariant, under which occupancy never exceeds capacity.
    spec fn wf(&self) -> bool;

    /// A well-formed lot holds no more occupants than its capacity.
    proof fn lemma_within_capacity(&self)
        requires
            self.wf(),
        ensures
            self@.len() <= self.capacity(),
            self.capacity() <= usize::MAX,
    ;

    /// Whether a spot is free.
    fn can_park(&self) -> (free: bool)
        requires
            self.wf(),
        ensures
            free == (self@.len() < self.capacity()),
    ;

    /// Parks a car with the given timestamp if a spot is free, and reports
    /// whether it did.
    fn try_park(&mut self, timestamp: u32) -> (parked: bool)
        requires
            old(self).wf(),
        ensures
            final(self).wf(),
            final(self).capacity() == old(self).capacity(),
            parked == (old(self)@.len() < old(self).capacity()),
            parked ==> final(self)@ == old(self)@.push(timestamp),
            !parked ==> final(self)@ == old(self)@,
    ;

    /// The number of occupants, which never exceeds the capacity.
    fn get_occupancy(&self) -> (n: usize)
        requires
            self.wf(),
        ensures
            n == self@.len(),
            n <= self.capacity(),
    ;

    /// Removes and returns the occupant at position `index`; the last
    /// occupant takes its position. Occupancy drops by one and one
    /// occurrence of the returned spot leaves the multiset of occupants.
    fn remove_index(&mut self, index: usize) -> (spot: Spot)
        requires
            old(self).wf(),
            index < old(self)@.len(),
        ensures
            final(self).wf(),
            final(self).capacity() == old(self).capacity(),
            spot == old(self)@[index as int],
            final(self)@ == swap_removed(old(self)@, index as int),
            final(self)@.len() == old(self)@.len() - 1,
            final(self)@.to_multiset() == old(self)@.to_multiset().remove(spot),
    ;

    /// The occupants by position.
    fn iter(&self) -> (spots: &[Spot])
        requires
            self.wf(),
        ensures
            spots@ == self@,
    ;
}

/// The positions in `marked` are strictly ascending and lie within a lot
/// of `len` occupants.
pub open spec fn valid_marks(marked: Seq<usize>, len: nat) -> bool {
    &&& forall|j: int| 0 <= j < marked.len() ==> (#[trigger] marked[j]) < len
    &&& forall|j: int, k: int| 0 <= j < k < marked.len() ==> marked[j] < marked[k]
}

/// The multiset of the occupants of `lot` at the positions in `marked`.
pub open spec fn spots_at(lot: Seq<Spot>, marked: Seq<usize>) -> Multiset<Spot>
    decreases marked.len(),
{
    if marked.len() == 0 {
        Multiset::empty()
    } else {
        spots_at(lot, marked.drop_first()).insert(lot[marked.first() as int])
    }
}

/// The position `i` is one of those in `marked`.
pub open spec fn is_marked(marked: Seq<usize>, i: int) -> bool {
    exists|m: int| 0 <= m < marked.len() && marked[m] == i
}

/// The spot `v` stands in `lot` at a position that is not in `marked`.
pub open spec fn kept(lot: Seq<Spot>, marked: Seq<usize>, v: Spot) -> bool {
    exists|i: int| 0 <= i < lot.len() && !is_marked(marked, i) && lot[i] == v
}

/// Removes the occupants at the marked positions, from the last position to
/// the first. What is left are the occupants of the positions not marked.
pub fn remove_marked<P: ParkingLot>(lot: &mut P, marked: &Vec<usize>)
    requires
        old(lot).wf(),
        valid_marks(marked@, old(lot)@.len()),
    ensures
        final(lot).wf(),
        final(lot).capacity() == old(lot).capacity(),
        final(lot)@.len() == old(lot)@.len() - marked@.len(),
        final(lot)@.to_multiset() == old(lot)@.to_multiset().sub(spots_at(old(lot)@, marked@)),
        forall|k: int| 0 <= k < final(lot)@.len() ==> kept(old(lot)@, marked@, #[trigger] final(lot)@[k]),
{
    let ghost initial = lot@;
    let total: usize = marked.len();
    let mut j: usize = total;
    proof {
        assert(marked@.subrange(total as int, total as int) =~= Seq::<usize>::empty());
        assert(initial.to_multiset().sub(Multiset::<Spot>::empty()) =~= initial.to_multiset());
        assert forall|k: int| 0 <= k < initial.len() && k >= initial.len() implies kept(
            initial,
            marked@,
            #[trigger] initial[k],
        ) by {}
    }
    while j > 0
        invariant
            j <= total,
            total == marked@.len(),
            valid_marks(marked@, initial.len()),
            lot.wf(),
            lot.capacity() == old(lot).capacity(),
            lot@.len() == initial.len() - (total - j),
            lot@.to_multiset() == initial.to_multiset().sub(
                spots_at(initial, marked@.subrange(j as int, total as int)),
            ),
            forall|i: int|
                0 <= i < lot@.len() && (j == total || i < marked@[j as int]) ==> lot@[i]
                    == initial[i],
            j < total ==> marked@[j as int] <= lot@.len(),
            forall|k: int|
                0 <= k < lot@.len() && j < total && k >= marked@[j as int] ==> kept(
                    initial,
                    marked@,
                    #[trigger] lot@[k],
                ),
        decreases j,
    {
        let index: usize = marked[j - 1];
        let ghost before = lot@;
        let ghost done = marked@.subrange(j as int, total as int);
        let ghost next = marked@.subrange(j - 1, total as int);
        proof {
            assert(index < initial.len());
            if j < total {
                assert(marked@[j - 1] < marked@[j as int]);
            }
            assert(index < before.len());
            assert(before[index as int] == initial[index as int]);
            assert(next.drop_first() =~= done);
            assert(next.first() == index);
            assert(spots_at(initial, next) == spots_at(initial, done).insert(
                initial[index as int],
            ));
            assert(initial.to_multiset().sub(spots_at(initial, done)).remove(
                initial[index as int],
            ) =~= initial.to_multiset().sub(spots_at(initial, next)));
        }
        let _ = lot.remove_index(index);
        proof {
            lemma_swap_removed(before, index as int);
            assert forall|k: int| 0 <= k < lot@.len() && k >= index implies kept(
                initial,
                marked@,
                #[trigger] lot@[k],
            ) by {
                let source: int = if k == index {
                    before.len() - 1
                } else {
                    k
                };
                assert(lot@[k] == before[source]);
                assert(source > index);
                if j < total && source >= marked@[j as int] {
                    assert(kept(initial, marked@, before[source]));
                } else {
                    assert(before[source] == initial[source]);
                    assert(!is_marked(marked@, source)) by {
                        if is_marked(marked@, source) {
                            let m = choose|m: int| 0 <= m < marked@.len() && marked@[m] == source;
                            if m < j - 1 {
                                assert(marked@[m] < marked@[j - 1]);
                            } else if m >= j {
                                if m > j {
                                    assert(marked@[j as int] < marked@[m]);
                                }
                            }
                        }
                    }
                }
            }
        }
        j = j - 1;
    }
    proof {
        assert(marked@.subrange(0, total as int) =~= marked@);
        assert forall|k: int| 0 <= k < lot@.len() implies kept(
            initial,
            marked@,
            #[trigger] lot@[k],
        ) by {
            if total > 0 && k >= marked@[0] {
            } else {
                assert(lot@[k] == initial[k]);
                assert(!is_marked(marked@, k)) by {
                    if is_marked(marked@, k) {
                        let m = choose|m: int| 0 <= m < marked@.len() && marked@[m] == k;
                        if m > 0 {
                            assert(marked@[0] < marked@[m]);
                        }
                    }
                }
            }
        }
    }
}

/// A lot backed by growable storage.
pub struct VecParkingLot {
    occupancy: Vec<Spot>,
    capacity: usize,
}

impl View for VecParkingLot {
    type V = Seq<Spot>;

    closed spec fn view(&self) -> Seq<Spot> {
        self.occupancy@
    }
}

impl VecParkingLot {
    /// An empty lot of the given capacity.
    pub fn new(capacity: usize) -> (lot: Self)
        ensures
            lot.wf(),
            lot@ == Seq::<Spot>::empty(),
            lot.capacity() == capacity,
    {
        Self { capacity, occupancy: Vec::with_capacity(capacity) }
    }
}

impl ParkingLot for VecParkingLot {
    closed spec fn capacity(&self) -> nat {
        self.capacity as nat
    }

    closed spec fn wf(&self) -> bool {
        self.occupancy@.len() <= self.capacity
    }

    proof fn lemma_within_capacity(&self) {
    }

    fn can_park(&self) -> (free: bool) {
        self.occupancy.len() != self.capacity
    }

    fn try_park(&mut self, timestamp: u32) -> (parked: bool) {
        if !self.can_park() {
            return false;
        }
        self.occupancy.push(timestamp);
        true
    }

    fn remove_index(&mut self, index: usize) -> (spot: Spot) {
        proof {
            lemma_swap_removed(self.occupancy@, index as int);
        }
        self.occupancy.swap_remove(index)
    }

    fn get_occupancy(&self) -> (n: usize) {
        self.occupancy.len()
    }

    fn iter(&self) -> (spots: &[Spot]) {
        self.occupancy.as_slice()
    }
}

/// A lot backed by a buffer of `MAX_CAPACITY` spots, which never allocates.
pub struct ArrayParkingLot {
    occupancy: [Spot; MAX_CAPACITY],
    length: usize,
    capacity: usize,
}

impl View for ArrayParkingLot {
    type V = Seq<Spot>;

    closed spec fn view(&self) -> Seq<Spot> {
        self.occupancy@.subrange(0, self.length as int)
    }
}

impl ArrayParkingLot {
    /// An empty lot of the given capacity, which the buffer must be able to
    /// hold.
    pub fn new(capacity: usize) -> (lot: Self)
        requires
            capacity <= MAX_CAPACITY,
        ensures
            lot.wf(),
            lot@ == Seq::<Spot>::empty(),
            lot.capacity() == capacity,
    {
        let lot = Self { capacity, length: 0, occupancy: [0;MAX_CAPACITY] };
        assert(lot@ =~= Seq::<Spot>::empty());
        lot
    }
}

impl ParkingLot for ArrayParkingLot {
    closed spec fn capacity(&self) -> nat {
        self.capacity as nat
    }

    closed spec fn wf(&self) -> bool {
        self.length <= self.capacity <= MAX_CAPACITY
    }

    proof fn lemma_within_capacity(&self) {
    }

    fn can_park(&self) -> (free: bool) {
        self.length != self.capacity
    }

    fn try_park(&mut self, timestamp: u32) -> (parked: bool) {
        if !self.can_park() {
            return false;
        }
        self.occupancy[self.length] = timestamp;
        self.length += 1;
        assert(self@ =~= old(self)@.push(timestamp));
        true
    }

    fn remove_index(&mut self, index: usize) -> (spot: Spot) {
        let old_spot = self.occupancy[index];
        self.length -= 1;
        self.occupancy[index] = self.occupancy[self.length];
        proof {
            assert(self@ =~= swap_removed(old(self)@, index as int));
            lemma_swap_removed(old(self)@, index as int);
        }
        old_spot
    }

    fn get_occupancy(&self) -> (n: usize) {
        self.length
    }

    fn iter(&self) -> (spots: &[Spot]) {
        slice_subrange(self.occupancy.as_slice(), 0, self.length)
    }
}

} // verus!
