//! The search for the smallest capacity whose mean queue stays within the
//! threshold: the score of a capacity, the linear scan with early exit, and
//! the binary search.

use crate::probability::Ratio;
use vstd::prelude::*;

verus! {

/// The sum of the numbers of cars that the runs left in the queue.
pub open spec fn sum_left(results: Seq<usize>) -> nat
    decreases results.len(),
{
    if results.len() == 0 {
        0
    } else {
        sum_left(results.drop_last()) + results.last() as nat
    }
}

/// The outcome of the runs for one capacity: the total number of cars left
/// over all runs, and the number of runs. It stands for their mean.
#[derive(Clone, Copy, Debug)]
pub struct Score {
    total: u64,
    runs: u32,
}

impl Score {
    /// The invariant of a score: it covers at least one run.
    #[verifier::type_invariant]
    pub closed spec fn wf(self) -> bool {
        self.runs > 0
    }

    /// The total number of cars left.
    pub closed spec fn total(self) -> nat {
        self.total as nat
    }

    /// The number of runs.
    pub closed spec fn runs(self) -> nat {
        self.runs as nat
    }

    /// The mean `total / runs` is at most `threshold`.
    pub open spec fn within_spec(self, threshold: Ratio) -> bool {
        self.total() * threshold.den() <= threshold.num() * self.runs()
    }

    /// The score of `runs` runs that left `total` cars in all; `None`
    /// exactly when there is no run.
    pub fn new(total: u64, runs: u32) -> (r: Option<Score>)
        ensures
            r.is_some() <==> runs != 0,
            r matches Some(score) ==> score.wf() && score.total() == total && score.runs() == runs,
    {
        if runs == 0 {
            None
        } else {
            Some(Score { total, runs })
        }
    }

    /// The score of the runs with the given results: every run counts once.
    /// `None` exactly when there is no run, when there are more runs than a
    /// `u32` counts, or when their total exceeds a `u64`.
    pub fn from_runs(results: &Vec<usize>) -> (r: Option<Score>)
        ensures
            r.is_some() <==> 0 < results@.len() <= u32::MAX && sum_left(results@) <= u64::MAX,
            r matches Some(score) ==> score.wf() && score.total() == sum_left(results@)
                && score.runs() == results@.len(),
    {
        let runs: usize = results.len();
        if runs == 0 || runs > u32::MAX as usize {
            return None;
        }
        let mut total: u128 = 0;
        let mut i: usize = 0;
        while i < runs
            invariant
                runs == results@.len(),
                runs <= u32::MAX,
                i <= runs,
                total == sum_left(results@.subrange(0, i as int)),
                total <= i * 0xffff_ffff_ffff_ffff,
            decreases runs - i,
        {
            proof {
                assert(results@.subrange(0, i + 1).drop_last() =~= results@.subrange(0, i as int));
                assert(results@.subrange(0, i + 1).last() == results@[i as int]);
                assert((i + 1) * 0xffff_ffff_ffff_ffff == i * 0xffff_ffff_ffff_ffff
                    + 0xffff_ffff_ffff_ffff) by (nonlinear_arith);
                assert(i * 0xffff_ffff_ffff_ffff <= 0xffff_ffff * 0xffff_ffff_ffff_ffff)
                    by (nonlinear_arith)
                    requires
                        i <= 0xffff_ffff,
                ;
            }
            total = total + results[i] as u128;
            i += 1;
        }
        proof {
            assert(results@.subrange(0, runs as int) =~= results@);
        }
        if total > u64::MAX as u128 {
            None
        } else {
            Some(Score { total: total as u64, runs: runs as u32 })
        }
    }

    /// The total number of cars left.
    pub fn total_left(&self) -> (total: u64)
        ensures
            total == self.total(),
    {
        self.total
    }

    /// The number of runs, which is never zero.
    pub fn run_count(&self) -> (runs: u32)
        ensures
            runs == self.runs(),
            runs > 0,
    {
        proof {
            use_type_invariant(self);
        }
        self.runs
    }

    /// Whether the capacity is accepted: the mean number of cars left is at
    /// most the threshold.
    pub fn within(&self, threshold: &Ratio) -> (accepted: bool)
        ensures
            accepted == self.within_spec(*threshold),
    {
        let den: u32 = threshold.denominator();
        let num: u32 = threshold.numerator();
        assert(self.total * den <= 0xffff_ffff_ffff_ffff * 0xffff_ffff) by (nonlinear_arith)
            requires
                self.total <= 0xffff_ffff_ffff_ffff,
                den <= 0xffff_ffff,
        ;
        assert(num * self.runs <= 0xffff_ffff * 0xffff_ffff) by (nonlinear_arith)
            requires
                num <= 0xffff_ffff,
                self.runs <= 0xffff_ffff,
        ;
        let left: u128 = (self.total as u128) * (den as u128);
        let right: u128 = (num as u128) * (self.runs as u128);
        left <= right
    }
}

/// Acceptance never turns into rejection as the capacity grows.
pub open spec fn monotone(accepts: spec_fn(usize) -> bool) -> bool {
    forall|c: usize, d: usize| c <= d && #[trigger] accepts(c) ==> #[trigger] accepts(d)
}

/// `c` is the smallest capacity from one on that is accepted.
pub open spec fn least_accepted(accepts: spec_fn(usize) -> bool, c: usize) -> bool {
    &&& c >= 1
    &&& accepts(c)
    &&& forall|d: usize| 1 <= d < c ==> !#[trigger] accepts(d)
}

/// The shared state of the linear scan with early exit: the next capacity
/// to try, the smallest capacity accepted so far, and whether the scan
/// stops issuing capacities.
#[derive(Clone, Copy, Debug, PartialEq, Eq, Structural)]
pub struct LinearScan {
    /// The next capacity to issue.
    pub next: usize,
    /// The smallest capacity accepted so far; the largest `usize` while
    /// none is.
    pub smallest: usize,
    /// Whether a capacity was accepted, so that no further one is issued.
    pub done: bool,
}

/// The outcome of the runs for one capacity, as the scan sees it.
pub struct Verdict {
    /// The capacity that was tried.
    pub capacity: usize,
    /// Whether its score was within the threshold.
    pub accepted: bool,
}

impl LinearScan {
    /// The state after the verdict on `capacity` is recorded: an accepted
    /// capacity stops the scan and lowers the smallest accepted capacity if
    /// it is below it.
    pub open spec fn recorded(self, capacity: usize, accepted: bool) -> LinearScan {
        if accepted {
            LinearScan {
                next: self.next,
                smallest: if capacity < self.smallest {
                    capacity
                } else {
                    self.smallest
                },
                done: true,
            }
        } else {
            self
        }
    }

    /// The state after the verdicts are recorded one after the other.
    pub open spec fn recorded_all(self, verdicts: Seq<Verdict>) -> LinearScan
        decreases verdicts.len(),
    {
        if verdicts.len() == 0 {
            self
        } else {
            self.recorded_all(verdicts.drop_last()).recorded(
                verdicts.last().capacity,
                verdicts.last().accepted,
            )
        }
    }

    /// A scan that starts at capacity one with nothing accepted.
    pub fn new() -> (scan: LinearScan)
        ensures
            scan == (LinearScan { next: 1, smallest: usize::MAX, done: false }),
    {
        LinearScan { next: 1, smallest: usize::MAX, done: false }
    }

    /// Issues the next capacity to try: none once a capacity was accepted,
    /// and none beyond the largest `usize`.
    pub fn next_capacity(&mut self) -> (capacity: Option<usize>)
        ensures
            capacity.is_some() <==> !old(self).done && old(self).next < usize::MAX,
            capacity matches Some(c) ==> c == old(self).next && *final(self) == (LinearScan {
                next: (c + 1) as usize,
                ..*old(self)
            }),
            capacity.is_none() ==> *final(self) == *old(self),
    {
        if self.done || self.next == usize::MAX {
            None
        } else {
            let capacity: usize = self.next;
            self.next = capacity + 1;
            Some(capacity)
        }
    }

    /// Records the verdict on a capacity that was tried.
    pub fn record(&mut self, capacity: usize, accepted: bool)
        ensures
            *final(self) == old(self).recorded(capacity, accepted),
    {
        if accepted {
            self.done = true;
            if capacity < self.smallest {
                self.smallest = capacity;
            }
        }
    }

    /// The smallest capacity accepted so far, if any was.
    pub fn result(&self) -> (best: Option<usize>)
        ensures
            best == if self.done {
                Some(self.smallest)
            } else {
                None
            },
    {
        if self.done {
            Some(self.smallest)
        } else {
            None
        }
    }

    /// The order in which two verdicts are recorded does not matter.
    pub proof fn lemma_record_commutes(self, c1: usize, a1: bool, c2: usize, a2: bool)
        ensures
            self.recorded(c1, a1).recorded(c2, a2) == self.recorded(c2, a2).recorded(c1, a1),
    {
    }

    /// After any verdicts are recorded, the smallest accepted capacity is at
    /// most every capacity that was accepted and at most what it was before;
    /// it is what it was before or one of the accepted capacities; and the
    /// scan is stopped exactly if it was stopped before or a capacity was
    /// accepted.
    pub proof fn lemma_smallest_is_minimum(self, verdicts: Seq<Verdict>)
        ensures
            ({
                let after = self.recorded_all(verdicts);
                &&& after.next == self.next
                &&& after.smallest <= self.smallest
                &&& forall|i: int|
                    0 <= i < verdicts.len() && (#[trigger] verdicts[i]).accepted ==> after.smallest
                        <= verdicts[i].capacity
                &&& after.smallest == self.smallest || exists|i: int|
                    0 <= i < verdicts.len() && (#[trigger] verdicts[i]).accepted
                        && verdicts[i].capacity == after.smallest
                &&& after.done <==> self.done || exists|i: int|
                    0 <= i < verdicts.len() && (#[trigger] verdicts[i]).accepted
            }),
        decreases verdicts.len(),
    {
        if verdicts.len() > 0 {
            let front = verdicts.drop_last();
            let last = verdicts.last();
            self.lemma_smallest_is_minimum(front);
            let before = self.recorded_all(front);
            let after = self.recorded_all(verdicts);
            assert(after == before.recorded(last.capacity, last.accepted));
            assert forall|i: int| 0 <= i < front.len() implies front[i] == verdicts[i] by {}
            assert(verdicts[verdicts.len() - 1] == last);
            if before.smallest != self.smallest {
                let i = choose|i: int|
                    0 <= i < front.len() && (#[trigger] front[i]).accepted && front[i].capacity
                        == before.smallest;
                assert(verdicts[i].accepted);
            }
            if before.done && !self.done {
                let i = choose|i: int| 0 <= i < front.len() && (#[trigger] front[i]).accepted;
                assert(verdicts[i].accepted);
            }
            if after.done && !self.done && !last.accepted {
                assert(before.done);
            }
            assert forall|i: int|
                0 <= i < verdicts.len() && (#[trigger] verdicts[i]).accepted implies after.smallest
                <= verdicts[i].capacity by {
                if i < front.len() {
                    assert(front[i].accepted);
                }
            }
            if !(after.done <==> self.done || exists|i: int|
                0 <= i < verdicts.len() && (#[trigger] verdicts[i]).accepted) {
                if after.done {
                } else {
                    let i = choose|i: int| 0 <= i < verdicts.len() && (#[trigger] verdicts[i]).accepted;
                    if i < front.len() {
                        assert(front[i].accepted);
                    }
                }
            }
        }
    }
}

/// Every verdict is the one that `accepts` gives for a capacity of at least
/// one.
pub open spec fn follows(verdicts: Seq<Verdict>, accepts: spec_fn(usize) -> bool) -> bool {
    forall|i: int|
        0 <= i < verdicts.len() ==> (#[trigger] verdicts[i]).capacity >= 1 && verdicts[i].accepted
            == accepts(verdicts[i].capacity)
}

/// A scan that has recorded, in any order, verdicts that follow `accepts`,
/// among them the one on the smallest accepted capacity, holds that capacity
/// as its result.
pub proof fn lemma_scan_finds_least_accepted(
    verdicts: Seq<Verdict>,
    accepts: spec_fn(usize) -> bool,
    least: usize,
)
    requires
        follows(verdicts, accepts),
        least_accepted(accepts, least),
        least < usize::MAX,
        exists|i: int| 0 <= i < verdicts.len() && (#[trigger] verdicts[i]).capacity == least,
    ensures
        (LinearScan { next: 1, smallest: usize::MAX, done: false }).recorded_all(verdicts).smallest
            == least,
        (LinearScan { next: 1, smallest: usize::MAX, done: false }).recorded_all(verdicts).done,
{
    let start = LinearScan { next: 1, smallest: usize::MAX, done: false };
    let after = start.recorded_all(verdicts);
    start.lemma_smallest_is_minimum(verdicts);
    let k = choose|i: int| 0 <= i < verdicts.len() && (#[trigger] verdicts[i]).capacity == least;
    assert(verdicts[k].accepted);
    assert(after.smallest <= least);
    if after.smallest != start.smallest {
        let i = choose|i: int|
            0 <= i < verdicts.len() && (#[trigger] verdicts[i]).accepted && verdicts[i].capacity
                == after.smallest;
        assert(accepts(verdicts[i].capacity));
    }
}

/// The state of the binary search. It first doubles a trial capacity until
/// one is accepted, then bisects between half of that capacity plus one and
/// that capacity.
#[derive(Clone, Copy, Debug, PartialEq, Eq, Structural)]
pub enum BinarySearch {
    /// The capacity `upper` is tried next; every smaller power of two was
    /// rejected.
    Doubling {
        /// The trial capacity.
        upper: usize,
    },
    /// The capacity in the middle of `low` and `high` is tried next.
    Bisecting {
        /// The smallest capacity still in question.
        low: usize,
        /// The largest capacity still in question.
        high: usize,
    },
    /// The search has ended.
    Done {
        /// The capacity found.
        result: usize,
    },
}

/// The search between `low` and `high`: ended with `low` once the bounds
/// have crossed.
pub open spec fn bisecting(low: int, high: int) -> BinarySearch {
    if low <= high {
        BinarySearch::Bisecting { low: low as usize, high: high as usize }
    } else {
        BinarySearch::Done { result: low as usize }
    }
}

impl BinarySearch {
    /// The search's invariant: its capacities are at least one, in order,
    /// and leave room for one more.
    pub open spec fn wf(self) -> bool {
        match self {
            BinarySearch::Doubling { upper } => 1 <= upper < usize::MAX,
            BinarySearch::Bisecting { low, high } => 1 <= low <= high < usize::MAX,
            BinarySearch::Done { result } => true,
        }
    }

    /// The capacity to try next, if the search has not ended.
    pub open spec fn candidate(self) -> Option<usize> {
        match self {
            BinarySearch::Doubling { upper } => Some(upper),
            BinarySearch::Bisecting { low, high } => Some((low + (high - low) / 2) as usize),
            BinarySearch::Done { result } => None,
        }
    }

    /// The trial capacity can be doubled within the range of `usize`.
    pub open spec fn can_double(self) -> bool {
        self matches BinarySearch::Doubling { upper } ==> 2 * upper < usize::MAX
    }

    /// The state after the verdict on the candidate: while doubling, an
    /// accepted candidate starts the bisection and a rejected one is doubled;
    /// while bisecting, an accepted candidate becomes the upper bound less
    /// one and a rejected one the lower bound plus one.
    pub open spec fn reported(self, accepted: bool) -> BinarySearch {
        match self {
            BinarySearch::Doubling { upper } => if accepted {
                bisecting(upper / 2 + 1, upper as int)
            } else {
                BinarySearch::Doubling { upper: (2 * upper) as usize }
            },
            BinarySearch::Bisecting { low, high } => {
                let mid = low + (high - low) / 2;
                if accepted {
                    bisecting(low as int, mid - 1)
                } else {
                    bisecting(mid + 1, high as int)
                }
            },
            BinarySearch::Done { result } => self,
        }
    }

    /// The number of capacities still in question while bisecting.
    pub open spec fn remaining(self) -> nat {
        match self {
            BinarySearch::Bisecting { low, high } => (high - low + 1) as nat,
            _ => 0,
        }
    }

    /// The capacity with which the bisection ends when `accepts` gives the
    /// verdict on every candidate.
    pub open spec fn settled(self, accepts: spec_fn(usize) -> bool) -> usize
        decreases self.remaining(),
    {
        match self {
            BinarySearch::Bisecting { low, high } => {
                let mid = (low + (high - low) / 2) as usize;
                if low <= high < usize::MAX {
                    self.reported(accepts(mid)).settled(accepts)
                } else {
                    low
                }
            },
            BinarySearch::Done { result } => result,
            BinarySearch::Doubling { upper } => upper,
        }
    }

    /// A bisection under a monotone acceptance, with every capacity below the
    /// lower bound rejected and the one above the upper bound accepted, ends
    /// with the smallest accepted capacity.
    pub proof fn lemma_bisection_finds_least_accepted(self, accepts: spec_fn(usize) -> bool)
        requires
            monotone(accepts),
            match self {
                BinarySearch::Bisecting { low, high } => {
                    &&& self.wf()
                    &&& accepts((high + 1) as usize)
                    &&& forall|d: usize| 1 <= d < low ==> !#[trigger] accepts(d)
                },
                BinarySearch::Done { result } => least_accepted(accepts, result),
                BinarySearch::Doubling { upper } => false,
            },
        ensures
            least_accepted(accepts, self.settled(accepts)),
        decreases self.remaining(),
    {
        match self {
            BinarySearch::Bisecting { low, high } => {
                let mid = (low + (high - low) / 2) as usize;
                let next = self.reported(accepts(mid));
                if accepts(mid) {
                    if low as int <= mid - 1 {
                        assert(next == BinarySearch::Bisecting { low, high: (mid - 1) as usize });
                    } else {
                        assert(next == BinarySearch::Done { result: low });
                        assert(mid == low);
                    }
                } else {
                    assert forall|d: usize| 1 <= d < mid + 1 implies !#[trigger] accepts(d) by {
                        if accepts(d) {
                            assert(d <= mid);
                        }
                    }
                    if mid + 1 <= high as int {
                        assert(next == BinarySearch::Bisecting { low: (mid + 1) as usize, high });
                    } else {
                        assert(next == BinarySearch::Done { result: (mid + 1) as usize });
                        assert(mid == high);
                    }
                }
                next.lemma_bisection_finds_least_accepted(accepts);
            },
            _ => {},
        }
    }

    /// Under a monotone acceptance the binary search ends with the smallest
    /// accepted capacity: the doubling stops at the first accepted trial
    /// capacity, half of which was rejected, and the bisection that follows
    /// settles on the smallest accepted capacity.
    pub proof fn lemma_finds_least_accepted(upper: usize, accepts: spec_fn(usize) -> bool)
        requires
            monotone(accepts),
            1 <= upper < usize::MAX,
            accepts(upper),
            upper > 1 ==> !accepts(upper / 2),
        ensures
            least_accepted(
                accepts,
                (BinarySearch::Doubling { upper }).reported(true).settled(accepts),
            ),
    {
        let start = (BinarySearch::Doubling { upper }).reported(true);
        assert(start == BinarySearch::Bisecting { low: (upper / 2 + 1) as usize, high: upper });
        assert(accepts((upper + 1) as usize));
        assert forall|d: usize| 1 <= d < upper / 2 + 1 implies !#[trigger] accepts(d) by {
            if accepts(d) {
                assert(d <= upper / 2);
                assert(accepts(upper / 2));
            }
        }
        start.lemma_bisection_finds_least_accepted(accepts);
    }

    /// How far the trial capacity is below `bound` while doubling.
    pub open spec fn room(self, bound: usize) -> nat {
        match self {
            BinarySearch::Doubling { upper } => if upper < bound {
                (bound - upper) as nat
            } else {
                0
            },
            _ => 0,
        }
    }

    /// The capacity with which the search ends when `accepts` gives the
    /// verdict on every candidate: the trial capacity is doubled until it is
    /// accepted, and the bisection that follows settles. `bound` is a
    /// capacity beyond which the doubling is not followed.
    pub open spec fn outcome(self, accepts: spec_fn(usize) -> bool, bound: usize) -> usize
        decreases self.room(bound),
    {
        match self {
            BinarySearch::Doubling { upper } => if accepts(upper) {
                self.reported(true).settled(accepts)
            } else if 1 <= upper < bound && 2 * upper < usize::MAX {
                self.reported(false).outcome(accepts, bound)
            } else {
                upper
            },
            _ => self.settled(accepts),
        }
    }

    /// Under a monotone acceptance that accepts some capacity, the binary
    /// search from a trial capacity whose half was rejected ends with the
    /// smallest accepted capacity: the doubling ends at the first accepted
    /// trial capacity, half of which was rejected, and the bisection settles
    /// between the two.
    pub proof fn lemma_doubling_finds_least_accepted(
        self,
        accepts: spec_fn(usize) -> bool,
        bound: usize,
    )
        requires
            monotone(accepts),
            accepts(bound),
            2 * bound <= usize::MAX,
            self matches BinarySearch::Doubling { upper } && 1 <= upper < 2 * bound && (upper > 1
                ==> !accepts((upper / 2) as usize)),
        ensures
            least_accepted(accepts, self.outcome(accepts, bound)),
        decreases self.room(bound),
    {
        let upper = self->upper;
        if accepts(upper) {
            Self::lemma_finds_least_accepted(upper, accepts);
        } else {
            assert(upper < bound) by {
                if upper >= bound {
                    assert(accepts(upper));
                }
            }
            let next = self.reported(false);
            assert(next == BinarySearch::Doubling { upper: (2 * upper) as usize });
            assert((2 * upper) / 2 == upper);
            next.lemma_doubling_finds_least_accepted(accepts, bound);
        }
    }

    /// Under a monotone acceptance that accepts some capacity, the binary
    /// search from its start ends with the smallest accepted capacity.
    pub proof fn lemma_search_finds_least_accepted(accepts: spec_fn(usize) -> bool, bound: usize)
        requires
            monotone(accepts),
            bound >= 1,
            accepts(bound),
            2 * bound <= usize::MAX,
        ensures
            least_accepted(accepts, (BinarySearch::Doubling { upper: 1 }).outcome(accepts, bound)),
    {
        (BinarySearch::Doubling { upper: 1 }).lemma_doubling_finds_least_accepted(accepts, bound);
    }

    /// On a monotone acceptance that accepts some capacity the two policies
    /// agree: the linear scan, once it has recorded the verdict on the
    /// smallest accepted capacity, and the binary search from its start end
    /// with the same capacity.
    pub proof fn lemma_searches_agree(
        verdicts: Seq<Verdict>,
        accepts: spec_fn(usize) -> bool,
        bound: usize,
    )
        requires
            monotone(accepts),
            bound >= 1,
            accepts(bound),
            2 * bound <= usize::MAX,
            follows(verdicts, accepts),
            forall|c: usize|
                least_accepted(accepts, c) ==> exists|i: int|
                    0 <= i < verdicts.len() && (#[trigger] verdicts[i]).capacity == c,
        ensures
            (LinearScan { next: 1, smallest: usize::MAX, done: false }).recorded_all(
                verdicts,
            ).smallest == (BinarySearch::Doubling { upper: 1 }).outcome(accepts, bound),
    {
        let found = (BinarySearch::Doubling { upper: 1 }).outcome(accepts, bound);
        Self::lemma_search_finds_least_accepted(accepts, bound);
        assert(found <= bound) by {
            if found > bound {
                assert(!accepts(bound));
            }
        }
        lemma_scan_finds_least_accepted(verdicts, accepts, found);
    }

    /// A search that starts by trying capacity one.
    pub fn new() -> (search: BinarySearch)
        ensures
            search == (BinarySearch::Doubling { upper: 1 }),
            search.wf(),
    {
        BinarySearch::Doubling { upper: 1 }
    }

    /// The capacity to try next, if the search has not ended.
    pub fn next_capacity(&self) -> (capacity: Option<usize>)
        requires
            self.wf(),
        ensures
            capacity == self.candidate(),
            capacity matches Some(c) ==> c >= 1,
    {
        match self {
            BinarySearch::Doubling { upper } => Some(*upper),
            BinarySearch::Bisecting { low, high } => Some(*low + (*high - *low) / 2),
            BinarySearch::Done { .. } => None,
        }
    }

    /// Whether a rejected candidate can be followed by its double.
    pub fn has_room(&self) -> (room: bool)
        ensures
            room == self.can_double(),
    {
        match self {
            BinarySearch::Doubling { upper } => *upper <= (usize::MAX - 1) / 2,
            _ => true,
        }
    }

    /// Records the verdict on the candidate and moves to the next state.
    pub fn report(&mut self, accepted: bool)
        requires
            old(self).wf(),
            !accepted ==> old(self).can_double(),
        ensures
            final(self).wf(),
            *final(self) == old(self).reported(accepted),
            *old(self) is Bisecting ==> final(self).remaining() < old(self).remaining(),
    {
        match *self {
            BinarySearch::Doubling { upper } => {
                if accepted {
                    *self = BinarySearch::Bisecting { low: upper / 2 + 1, high: upper };
                } else {
                    *self = BinarySearch::Doubling { upper: 2 * upper };
                }
            },
            BinarySearch::Bisecting { low, high } => {
                let mid: usize = low + (high - low) / 2;
                if accepted {
                    if low <= mid - 1 {
                        *self = BinarySearch::Bisecting { low, high: mid - 1 };
                    } else {
                        *self = BinarySearch::Done { result: low };
                    }
                } else {
                    if mid + 1 <= high {
                        *self = BinarySearch::Bisecting { low: mid + 1, high };
                    } else {
                        *self = BinarySearch::Done { result: mid + 1 };
                    }
                }
            },
            BinarySearch::Done { .. } => {},
        }
    }

    /// The capacity found, once the search has ended.
    pub fn result(&self) -> (found: Option<usize>)
        ensures
            found == match *self {
                BinarySearch::Done { result } => Some(result),
                _ => None,
            },
    {
        match self {
            BinarySearch::Done { result } => Some(*result),
            _ => None,
        }
    }
}

} // verus!
