//! The schedule of pending departures: a binary min-heap of timestamps.

use vstd::multiset::Multiset;
use vstd::prelude::*;
use vstd::seq_lib::{to_multiset_remove, to_multiset_update};

verus! {

/// The position above `i` in the heap.
pub open spec fn parent(i: int) -> int {
    (i - 1) / 2
}

/// The entry at `i` is at least the entry above it.
pub open spec fn rests_on_parent(s: Seq<u32>, i: int) -> bool {
    s[parent(i)] <= s[i]
}

/// The entry at `i` is at least the entry above position `k`.
spec fn rests_on_parent_of(s: Seq<u32>, i: int, k: int) -> bool {
    s[parent(k)] <= s[i]
}

/// Every entry is at least the entry above it.
pub open spec fn heap_ordered(s: Seq<u32>) -> bool {
    forall|i: int| 0 < i < s.len() ==> #[trigger] rests_on_parent(s, i)
}

/// Heap order holds but possibly between position `k` and the one above it,
/// and the entries below `k` are at least the entry above `k`.
spec fn ordered_but_above(s: Seq<u32>, k: int) -> bool {
    &&& forall|i: int| 0 < i < s.len() && i != k ==> #[trigger] rests_on_parent(s, i)
    &&& forall|i: int|
        0 < i < s.len() && parent(i) == k && k > 0 ==> #[trigger] rests_on_parent_of(s, i, k)
}

/// Heap order holds but possibly between position `k` and the ones below it,
/// and the entries below `k` are at least the entry above `k`.
spec fn ordered_but_below(s: Seq<u32>, k: int) -> bool {
    &&& forall|i: int| 0 < i < s.len() && parent(i) != k ==> #[trigger] rests_on_parent(s, i)
    &&& forall|i: int|
        0 < i < s.len() && parent(i) == k && k > 0 ==> #[trigger] rests_on_parent_of(s, i, k)
}

/// `s` with the entries at `i` and `j` exchanged.
spec fn swapped(s: Seq<u32>, i: int, j: int) -> Seq<u32> {
    s.update(i, s[j]).update(j, s[i])
}

proof fn lemma_swapped_multiset(s: Seq<u32>, i: int, j: int)
    requires
        0 <= i < s.len(),
        0 <= j < s.len(),
    ensures
        swapped(s, i, j).to_multiset() == s.to_multiset(),
{
    let mid = s.update(i, s[j]);
    to_multiset_update(s, i, s[j]);
    to_multiset_update(mid, j, s[i]);
    s.to_multiset_ensures();
    assert(s.contains(s[i]));
    assert(s.contains(s[j]));
    assert(mid[j] == s[j]);
    assert(s.to_multiset().insert(s[j]).remove(s[i]).insert(s[i]).remove(s[j]) =~= s.to_multiset());
}

/// In a heap-ordered sequence no entry is below the first.
proof fn lemma_root_is_least(s: Seq<u32>, i: int)
    requires
        heap_ordered(s),
        0 <= i < s.len(),
    ensures
        s[0] <= s[i],
    decreases i,
{
    if i > 0 {
        lemma_root_is_least(s, parent(i));
        assert(rests_on_parent(s, i));
    }
}

/// A new last entry can break heap order only against the entry above it.
proof fn lemma_pushed(s: Seq<u32>, time: u32)
    requires
        heap_ordered(s),
    ensures
        ordered_but_above(s.push(time), s.len() as int),
{
    let t = s.push(time);
    let k = s.len() as int;
    assert forall|i: int| 0 < i < t.len() && i != k implies #[trigger] rests_on_parent(t, i) by {
        assert(rests_on_parent(s, i));
    }
}

/// Heap order that can fail only above the first entry does not fail, nor
/// does it where the entry at `k` is at least the one above it.
proof fn lemma_settled_above(s: Seq<u32>, k: int)
    requires
        0 <= k < s.len(),
        ordered_but_above(s, k),
        k == 0 || s[parent(k)] <= s[k],
    ensures
        heap_ordered(s),
{
    assert forall|i: int| 0 < i < s.len() implies #[trigger] rests_on_parent(s, i) by {
        if i != k {
            assert(rests_on_parent(s, i));
        }
    }
}

/// Exchanging the entry at `k` with a greater entry above it moves the
/// possible break of heap order one position up.
proof fn lemma_moved_up(s: Seq<u32>, k: int)
    requires
        0 < k < s.len(),
        ordered_but_above(s, k),
        s[parent(k)] > s[k],
    ensures
        ordered_but_above(swapped(s, parent(k), k), parent(k)),
{
    let p = parent(k);
    let t = swapped(s, p, k);
    assert forall|i: int| 0 < i < t.len() && i != p implies #[trigger] rests_on_parent(t, i) by {
        if i == k {
        } else if parent(i) == p {
            assert(rests_on_parent(s, i));
        } else if parent(i) == k {
            assert(rests_on_parent_of(s, i, k));
        } else {
            assert(rests_on_parent(s, i));
        }
    }
    assert forall|i: int| 0 < i < t.len() && parent(i) == p && p > 0 implies #[trigger] rests_on_parent_of(
        t,
        i,
        p,
    ) by {
        assert(rests_on_parent(s, p));
        if i != k {
            assert(rests_on_parent(s, i));
        }
    }
}

/// The first entry can replace any other without breaking heap order above
/// the first position's children.
proof fn lemma_replaced_root(s: Seq<u32>, last: u32)
    requires
        heap_ordered(s),
        s.len() > 0,
    ensures
        ordered_but_below(s.update(0, last), 0),
{
    let t = s.update(0, last);
    assert forall|i: int| 0 < i < t.len() && parent(i) != 0 implies #[trigger] rests_on_parent(t, i) by {
        assert(rests_on_parent(s, i));
    }
}

/// Dropping the last entry keeps heap order.
proof fn lemma_dropped_last(s: Seq<u32>)
    requires
        heap_ordered(s),
        s.len() > 0,
    ensures
        heap_ordered(s.drop_last()),
{
    let t = s.drop_last();
    assert forall|i: int| 0 < i < t.len() implies #[trigger] rests_on_parent(t, i) by {
        assert(rests_on_parent(s, i));
    }
}

/// Heap order that can fail only below `k` does not fail where the entry at
/// `k` is at most each entry below it.
proof fn lemma_settled_below(s: Seq<u32>, k: int)
    requires
        0 <= k < s.len(),
        ordered_but_below(s, k),
        2 * k + 1 < s.len() ==> s[k] <= s[2 * k + 1],
        2 * k + 2 < s.len() ==> s[k] <= s[2 * k + 2],
    ensures
        heap_ordered(s),
{
    assert forall|i: int| 0 < i < s.len() implies #[trigger] rests_on_parent(s, i) by {
        if parent(i) == k {
            assert(i == 2 * k + 1 || i == 2 * k + 2);
        } else {
            assert(rests_on_parent(s, i));
        }
    }
}

/// Exchanging the entry at `k` with the least entry below it, where that is
/// smaller, moves the possible break of heap order one position down.
proof fn lemma_moved_down(s: Seq<u32>, k: int, m: int)
    requires
        0 <= k < s.len(),
        m < s.len(),
        m == 2 * k + 1 || m == 2 * k + 2,
        2 * k + 1 < s.len() ==> s[m] <= s[2 * k + 1],
        2 * k + 2 < s.len() ==> s[m] <= s[2 * k + 2],
        s[k] > s[m],
        ordered_but_below(s, k),
    ensures
        ordered_but_below(swapped(s, k, m), m),
{
    let t = swapped(s, k, m);
    assert(parent(m) == k);
    assert forall|i: int| 0 < i < t.len() && parent(i) != m implies #[trigger] rests_on_parent(t, i) by {
        if i == m {
        } else if parent(i) == k {
            assert(i == 2 * k + 1 || i == 2 * k + 2);
        } else if i == k {
            assert(rests_on_parent_of(s, m, k));
        } else {
            assert(rests_on_parent(s, i));
        }
    }
    assert forall|i: int| 0 < i < t.len() && parent(i) == m && m > 0 implies #[trigger] rests_on_parent_of(
        t,
        i,
        m,
    ) by {
        assert(rests_on_parent(s, i));
    }
}

/// Pending departure times, of which the earliest is at hand. Its view is
/// the multiset of scheduled times.
pub struct DepartureSchedule {
    heap: Vec<u32>,
}

impl View for DepartureSchedule {
    type V = Multiset<u32>;

    closed spec fn view(&self) -> Multiset<u32> {
        self.heap@.to_multiset()
    }
}

/// `t` occurs in `m` and nothing in `m` is below it.
pub open spec fn is_least(m: Multiset<u32>, t: u32) -> bool {
    &&& m.count(t) > 0
    &&& forall|x: u32| m.count(x) > 0 ==> t <= x
}

/// The least value in `m`, if `m` is not empty.
pub open spec fn earliest(m: Multiset<u32>) -> Option<u32> {
    if m.len() == 0 {
        None
    } else {
        Some(choose|t: u32| is_least(m, t))
    }
}

/// A multiset has at most one least value, and one that has a least value is
/// not empty.
pub proof fn lemma_earliest(m: Multiset<u32>, t: u32)
    requires
        is_least(m, t),
    ensures
        earliest(m) == Some(t),
        m.len() > 0,
{
    broadcast use vstd::multiset::group_multiset_axioms;

    let c = choose|c: u32| is_least(m, c);
    assert(is_least(m, c));
    assert(c <= t && t <= c);
}

impl DepartureSchedule {
    /// The schedule's invariant: its storage is heap-ordered.
    pub closed spec fn wf(&self) -> bool {
        heap_ordered(self.heap@)
    }

    /// An empty schedule.
    pub fn new() -> (schedule: Self)
        ensures
            schedule.wf(),
            schedule@ == Multiset::<u32>::empty(),
    {
        let schedule = Self { heap: Vec::new() };
        assert(schedule.heap@.to_multiset() =~= Multiset::<u32>::empty()) by {
            schedule.heap@.to_multiset_ensures();
            assert(schedule.heap@.to_multiset().len() == 0);
        }
        schedule
    }

    /// The number of scheduled departures.
    pub fn len(&self) -> (n: usize)
        ensures
            n == self@.len(),
    {
        proof {
            self.heap@.to_multiset_ensures();
        }
        self.heap.len()
    }

    /// Whether nothing is scheduled.
    pub fn is_empty(&self) -> (empty: bool)
        ensures
            empty == (self@.len() == 0),
    {
        proof {
            self.heap@.to_multiset_ensures();
        }
        self.heap.len() == 0
    }

    /// The earliest scheduled time, if any.
    pub fn peek(&self) -> (earliest: Option<u32>)
        requires
            self.wf(),
        ensures
            earliest == self::earliest(self@),
            earliest.is_none() <==> self@.len() == 0,
            earliest matches Some(t) ==> is_least(self@, t),
    {
        proof {
            self.heap@.to_multiset_ensures();
        }
        if self.heap.len() == 0 {
            None
        } else {
            let t: u32 = self.heap[0];
            proof {
                self.lemma_first_is_least();
                lemma_earliest(self@, t);
            }
            Some(t)
        }
    }

    proof fn lemma_first_is_least(&self)
        requires
            self.wf(),
            self.heap@.len() > 0,
        ensures
            is_least(self@, self.heap@[0]),
    {
        let s = self.heap@;
        s.to_multiset_ensures();
        assert(s.contains(s[0]));
        assert forall|x: u32| self@.count(x) > 0 implies s[0] <= x by {
            assert(s.contains(x));
            let i = choose|i: int| 0 <= i < s.len() && s[i] == x;
            lemma_root_is_least(s, i);
        }
    }

    /// A schedule that is not empty has a least entry, which is its
    /// earliest.
    pub proof fn lemma_has_least(&self)
        requires
            self.wf(),
        ensures
            self@.len() > 0 ==> earliest(self@) is Some && is_least(self@, earliest(self@).unwrap()),
    {
        self.heap@.to_multiset_ensures();
        if self@.len() > 0 {
            self.lemma_first_is_least();
            lemma_earliest(self@, self.heap@[0]);
        }
    }

    /// Schedules a departure at `time`.
    pub fn push(&mut self, time: u32)
        requires
            old(self).wf(),
        ensures
            final(self).wf(),
            final(self)@ == old(self)@.insert(time),
    {
        proof {
            self.heap@.to_multiset_ensures();
            lemma_pushed(self.heap@, time);
        }
        self.heap.push(time);
        let ghost target = self.heap@.to_multiset();
        let mut k: usize = self.heap.len() - 1;
        while k > 0
            invariant
                k < self.heap@.len(),
                ordered_but_above(self.heap@, k as int),
                self.heap@.to_multiset() == target,
            ensures
                heap_ordered(self.heap@),
                self.heap@.to_multiset() == target,
            decreases k,
        {
            let above: usize = (k - 1) / 2;
            let ghost before = self.heap@;
            let upper: u32 = self.heap[above];
            let lower: u32 = self.heap[k];
            if upper <= lower {
                proof {
                    lemma_settled_above(before, k as int);
                }
                break ;
            }
            self.heap.set(above, lower);
            self.heap.set(k, upper);
            proof {
                assert(self.heap@ == swapped(before, above as int, k as int));
                lemma_swapped_multiset(before, above as int, k as int);
                lemma_moved_up(before, k as int);
            }
            k = above;
            proof {
                if k == 0 {
                    lemma_settled_above(self.heap@, 0);
                }
            }
        }
    }

    /// Takes the earliest scheduled time out of the schedule, if any.
    pub fn pop(&mut self) -> (earliest: Option<u32>)
        requires
            old(self).wf(),
        ensures
            final(self).wf(),
            earliest == self::earliest(old(self)@),
            earliest.is_none() <==> old(self)@.len() == 0,
            earliest.is_none() ==> final(self)@ == old(self)@,
            earliest matches Some(t) ==> is_least(old(self)@, t) && final(self)@ == old(self)@.remove(
                t,
            ),
    {
        proof {
            self.heap@.to_multiset_ensures();
        }
        if self.heap.len() == 0 {
            return None;
        }
        let least: u32 = self.heap[0];
        proof {
            self.lemma_first_is_least();
            lemma_earliest(self@, least);
        }
        let ghost initial = self.heap@;
        let last: u32 = self.heap.pop().unwrap();
        let ghost shortened = self.heap@;
        proof {
            assert(shortened =~= initial.remove(initial.len() - 1));
            assert(shortened =~= initial.drop_last());
            to_multiset_remove(initial, initial.len() - 1);
            lemma_dropped_last(initial);
        }
        let n: usize = self.heap.len();
        if n == 0 {
            return Some(least);
        }
        self.heap.set(0, last);
        let ghost target = self.heap@.to_multiset();
        proof {
            to_multiset_update(shortened, 0, last);
            initial.to_multiset_ensures();
            assert(initial.contains(last));
            assert(initial.contains(least));
            assert(initial.to_multiset().remove(last).insert(last).remove(least)
                =~= initial.to_multiset().remove(least));
            lemma_replaced_root(shortened, last);
        }
        let mut k: usize = 0;
        while k <= (n - 1) / 2 && 2 * k + 1 < n
            invariant
                n == self.heap@.len(),
                k < n,
                ordered_but_below(self.heap@, k as int),
                self.heap@.to_multiset() == target,
            ensures
                heap_ordered(self.heap@),
                self.heap@.to_multiset() == target,
            decreases n - k,
        {
            let left: usize = 2 * k + 1;
            let mut least_child: usize = left;
            if left + 1 < n && self.heap[left + 1] < self.heap[left] {
                least_child = left + 1;
            }
            let ghost before = self.heap@;
            let upper: u32 = self.heap[k];
            let lower: u32 = self.heap[least_child];
            if upper <= lower {
                proof {
                    lemma_settled_below(before, k as int);
                }
                break ;
            }
            self.heap.set(k, lower);
            self.heap.set(least_child, upper);
            proof {
                assert(self.heap@ == swapped(before, k as int, least_child as int));
                lemma_swapped_multiset(before, k as int, least_child as int);
                lemma_moved_down(before, k as int, least_child as int);
            }
            k = least_child;
            proof {
                if !(k <= (n - 1) / 2 && 2 * k + 1 < n) {
                    lemma_settled_below(self.heap@, k as int);
                }
            }
        }
        Some(least)
    }
}

/// The schedule with every entry equal to `t` taken out.
pub open spec fn without_due(schedule: Multiset<u32>, t: u32) -> Multiset<u32> {
    schedule.update(t, 0)
}

/// No entry of the schedule lies before `t`.
pub open spec fn none_before(schedule: Multiset<u32>, t: int) -> bool {
    forall|x: u32| schedule.count(x) > 0 ==> x >= t
}

/// The entries of the schedule at `t` or later.
pub open spec fn from_tick(schedule: Multiset<u32>, t: int) -> Multiset<u32> {
    schedule.filter(|x: u32| x >= t)
}

/// The departures are spread as one admission per tick and a longest stay
/// of `max_time` allow: of the cars that could have parked before `from`,
/// at most `from + max_time - t` leave at `t` or later.
pub open spec fn spread(schedule: Multiset<u32>, from: int, max_time: int) -> bool {
    forall|t: int|
        from <= t <= from + max_time ==> (#[trigger] from_tick(schedule, t)).len() <= from
            + max_time - t
}

/// A schedule spread from `from` holds no entry at `from + max_time` or
/// later.
pub proof fn lemma_spread_ends(schedule: Multiset<u32>, from: int, max_time: int, x: u32)
    requires
        max_time >= 0,
        spread(schedule, from, max_time),
        x >= from + max_time,
    ensures
        schedule.count(x) == 0,
{
    broadcast use vstd::multiset::group_multiset_axioms;

    let last = from_tick(schedule, from + max_time);
    assert(last.len() <= 0);
    assert(last.count(x) == schedule.count(x));
    vstd::multiset::axiom_count_le_len(last, x);
}

/// An empty schedule is spread.
pub proof fn lemma_spread_empty(from: int, max_time: int)
    ensures
        spread(Multiset::<u32>::empty(), from, max_time),
{
    broadcast use vstd::multiset::group_multiset_axioms;

    assert forall|t: int| from <= t <= from + max_time implies (#[trigger] from_tick(
        Multiset::<u32>::empty(),
        t,
    )).len() <= from + max_time - t by {
        assert(from_tick(Multiset::<u32>::empty(), t) =~= Multiset::<u32>::empty());
    }
}

/// A schedule spread from a tick is spread from every later tick.
pub proof fn lemma_spread_later(schedule: Multiset<u32>, from: int, later: int, max_time: int)
    requires
        max_time >= 0,
        from <= later,
        spread(schedule, from, max_time),
    ensures
        spread(schedule, later, max_time),
{
    broadcast use vstd::multiset::group_multiset_axioms;

    assert forall|t: int| later <= t <= later + max_time implies (#[trigger] from_tick(
        schedule,
        t,
    )).len() <= later + max_time - t by {
        if t > from + max_time {
            assert forall|x: u32| from_tick(schedule, t).count(x) == 0 by {
                if x >= t {
                    lemma_spread_ends(schedule, from, max_time, x);
                }
            }
            assert(from_tick(schedule, t) =~= Multiset::<u32>::empty());
        }
    }
}

/// A spread schedule stays spread when the entries due at a tick are taken
/// out.
pub proof fn lemma_spread_without(schedule: Multiset<u32>, from: int, max_time: int, due: u32)
    requires
        spread(schedule, from, max_time),
    ensures
        spread(without_due(schedule, due), from, max_time),
{
    broadcast use vstd::multiset::group_multiset_axioms;

    lemma_without_due(schedule, due);
    let rest = without_due(schedule, due);
    assert forall|t: int| from <= t <= from + max_time implies (#[trigger] from_tick(rest, t)).len()
        <= from + max_time - t by {
        let all = from_tick(schedule, t);
        let kept = from_tick(rest, t);
        assert(kept.subset_of(all)) by {
            assert forall|x: u32| kept.count(x) <= all.count(x) by {
                if x != due {
                    assert(rest.count(x) == schedule.count(x));
                }
            }
        }
        assert(all =~= all.sub(kept).add(kept));
    }
}

/// Where every entry of a spread schedule lies after `now`, fewer than
/// `max_time` cars are parked, and the schedule is spread from the next
/// tick, also with the departure of a car that parks now for at least one
/// and at most `max_time` ticks.
pub proof fn lemma_spread_next(schedule: Multiset<u32>, now: int, max_time: int, parked: int)
    requires
        spread(schedule, now, max_time),
        none_before(schedule, now + 1),
        1 <= parked <= max_time,
        0 <= now + parked <= u32::MAX,
    ensures
        schedule.len() < max_time,
        spread(schedule, now + 1, max_time),
        spread(schedule.insert((now + parked) as u32), now + 1, max_time),
{
    broadcast use vstd::multiset::group_multiset_axioms;

    assert(from_tick(schedule, now + 1) =~= schedule);
    lemma_spread_later(schedule, now, now + 1, max_time);
    let leaving = (now + parked) as u32;
    let next = schedule.insert(leaving);
    assert forall|t: int| now + 1 <= t <= now + 1 + max_time implies (#[trigger] from_tick(
        next,
        t,
    )).len() <= now + 1 + max_time - t by {
        if leaving >= t {
            assert(from_tick(next, t) =~= from_tick(schedule, t).insert(leaving));
            assert(t <= now + max_time);
        } else {
            assert(from_tick(next, t) =~= from_tick(schedule, t));
        }
        if t > now + max_time {
            assert forall|x: u32| from_tick(schedule, t).count(x) == 0 by {
                if x >= t {
                    lemma_spread_ends(schedule, now, max_time, x);
                }
            }
            assert(from_tick(schedule, t) =~= Multiset::<u32>::empty());
        }
    }
}

/// Taking the entries equal to `t` out of a schedule leaves the other
/// entries as they are and none equal to `t`, and shortens the schedule by
/// the number of entries equal to `t`.
pub proof fn lemma_without_due(schedule: Multiset<u32>, t: u32)
    ensures
        without_due(schedule, t).count(t) == 0,
        forall|x: u32| x != t ==> without_due(schedule, t).count(x) == schedule.count(x),
        without_due(schedule, t).len() == schedule.len() - schedule.count(t),
        schedule.count(t) == 0 ==> without_due(schedule, t) == schedule,
{
    broadcast use vstd::multiset::group_multiset_axioms;

    let copies = Multiset::<u32>::empty().update(t, schedule.count(t));
    let rest = schedule.update(t, 0);
    vstd::multiset::lemma_update_same(schedule, t, 0);
    vstd::multiset::lemma_update_same(Multiset::<u32>::empty(), t, schedule.count(t));
    assert forall|x: u32| x != t implies rest.count(x) == schedule.count(x) && copies.count(x)
        == 0 by {
        vstd::multiset::lemma_update_different(schedule, t, 0, x);
        vstd::multiset::lemma_update_different(Multiset::<u32>::empty(), t, schedule.count(t), x);
    }
    assert(schedule =~= rest.add(copies));
    lemma_len_copies(t, schedule.count(t));
    if schedule.count(t) == 0 {
        assert(rest =~= schedule);
    }
}

/// A multiset of `n` copies of one value has `n` elements.
proof fn lemma_len_copies(t: u32, n: nat)
    ensures
        Multiset::<u32>::empty().update(t, n).len() == n,
    decreases n,
{
    broadcast use vstd::multiset::group_multiset_axioms;

    let m = Multiset::<u32>::empty().update(t, n);
    vstd::multiset::lemma_update_same(Multiset::<u32>::empty(), t, n);
    assert forall|x: u32| x != t implies m.count(x) == 0 by {
        vstd::multiset::lemma_update_different(Multiset::<u32>::empty(), t, n, x);
    }
    if n == 0 {
        assert(m =~= Multiset::<u32>::empty());
    } else {
        let less = Multiset::<u32>::empty().update(t, (n - 1) as nat);
        lemma_len_copies(t, (n - 1) as nat);
        vstd::multiset::lemma_update_same(Multiset::<u32>::empty(), t, (n - 1) as nat);
        assert forall|x: u32| x != t implies less.count(x) == 0 by {
            vstd::multiset::lemma_update_different(Multiset::<u32>::empty(), t, (n - 1) as nat, x);
        }
        assert(m =~= less.insert(t));
    }
}

/// A schedule from which the other entries are kept and every entry equal to
/// `t` is gone is the schedule without the entries due at `t`.
proof fn lemma_all_due_removed(initial: Multiset<u32>, rest: Multiset<u32>, t: u32)
    requires
        forall|x: u32| x != t ==> rest.count(x) == initial.count(x),
        rest.count(t) == 0,
    ensures
        rest == without_due(initial, t),
{
    lemma_without_due(initial, t);
    assert(rest =~= initial.update(t, 0));
}

/// Takes the entries due at `timestamp` off the top of the schedule: as long
/// as the earliest entry equals `timestamp`, it is removed. Where
/// `timestamp` is the earliest entry, and so where no entry lies before it,
/// every entry equal to it is removed; where an earlier entry stands before
/// it, nothing is. Returns how many were removed.
pub fn pop_due(schedule: &mut DepartureSchedule, timestamp: u32) -> (removed: usize)
    requires
        old(schedule).wf(),
    ensures
        final(schedule).wf(),
        final(schedule)@ == if is_least(old(schedule)@, timestamp) {
            without_due(old(schedule)@, timestamp)
        } else {
            old(schedule)@
        },
        removed == if is_least(old(schedule)@, timestamp) {
            old(schedule)@.count(timestamp)
        } else {
            0
        },
        none_before(old(schedule)@, timestamp as int) ==> final(schedule)@ == without_due(
            old(schedule)@,
            timestamp,
        ) && removed == old(schedule)@.count(timestamp),
        final(schedule)@.len() == old(schedule)@.len() - removed,
{
    broadcast use vstd::multiset::group_multiset_axioms;

    let ghost initial = schedule@;
    let mut removed: usize = 0;
    proof {
        schedule.heap@.to_multiset_ensures();
        assert(initial.len() == schedule.heap.len());
        lemma_without_due(initial, timestamp);
    }
    loop
        invariant
            schedule.wf(),
            initial == old(schedule)@,
            initial.len() <= usize::MAX,
            schedule@.len() == initial.len() - removed,
            forall|x: u32| x != timestamp ==> schedule@.count(x) == initial.count(x),
            schedule@.count(timestamp) <= initial.count(timestamp),
            removed > 0 ==> is_least(initial, timestamp),
            removed == 0 ==> schedule@ == initial,
        ensures
            schedule.wf(),
            schedule@ == if is_least(initial, timestamp) {
                without_due(initial, timestamp)
            } else {
                initial
            },
            schedule@.len() == initial.len() - removed,
            removed > 0 <==> is_least(initial, timestamp),
        decreases schedule@.len(),
    {
        match schedule.peek() {
            Some(time) => {
                if time != timestamp {
                    proof {
                        if is_least(initial, timestamp) {
                            assert(initial.count(time) > 0);
                            if schedule@.count(timestamp) > 0 {
                                assert(time <= timestamp);
                            }
                            lemma_all_due_removed(initial, schedule@, timestamp);
                        }
                    }
                    break ;
                }
                proof {
                    assert forall|x: u32| initial.count(x) > 0 implies timestamp <= x by {
                        if x != timestamp {
                            assert(schedule@.count(x) > 0);
                        }
                    }
                }
                let _ = schedule.pop();
                removed += 1;
            },
            None => {
                proof {
                    assert(schedule@.count(timestamp) == 0);
                    if is_least(initial, timestamp) {
                        lemma_all_due_removed(initial, schedule@, timestamp);
                    }
                }
                break ;
            },
        }
    }
    proof {
        if none_before(initial, timestamp as int) && !is_least(initial, timestamp) {
            assert(initial.count(timestamp) == 0);
        }
    }
    removed
}

} // verus!
