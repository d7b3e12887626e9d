//! Ticks, and the order in which wakeups that wait for a tick come due.

use vstd::prelude::*;

verus! {

/// A discrete, monotonic unit of time.
pub type Tick = u64;

/// The ticks are in ascending order; equal ticks may follow each other.
pub open spec fn ascending_ticks(ticks: Seq<Tick>) -> bool {
    forall|i: int, j: int| 0 <= i <= j < ticks.len() ==> ticks[i] <= ticks[j]
}

/// The number of ticks of an ascending sequence that lie below `bound`: the
/// index of the first that does not.
pub open spec fn count_below(ticks: Seq<Tick>, bound: int) -> int
    decreases ticks.len(),
{
    if ticks.len() == 0 {
        0
    } else {
        count_below(ticks.drop_last(), bound) + if ticks.last() < bound {
            1int
        } else {
            0int
        }
    }
}

/// In an ascending sequence the ticks below a bound are a prefix: an index
/// that parts the ticks below from the others is their count.
pub proof fn lemma_count_below(ticks: Seq<Tick>, bound: int, at: int)
    requires
        0 <= at <= ticks.len(),
        forall|j: int| 0 <= j < at ==> ticks[j] < bound,
        forall|j: int| at <= j < ticks.len() ==> ticks[j] >= bound,
    ensures
        count_below(ticks, bound) == at,
    decreases ticks.len(),
{
    if ticks.len() > 0 {
        let front = ticks.drop_last();
        if at == ticks.len() {
            lemma_count_below(front, bound, at - 1);
        } else {
            lemma_count_below(front, bound, at);
        }
    }
}

/// The ticks for which wakeups are waiting, in ascending order. Whoever holds
/// the wakeups themselves keeps them in the same order: a wakeup registered
/// goes to the place that `register` names, and those that `take_due` counts
/// leave from the front.
pub struct Wakeups {
    ticks: Vec<Tick>,
}

impl View for Wakeups {
    type V = Seq<Tick>;

    closed spec fn view(&self) -> Seq<Tick> {
        self.ticks@
    }
}

impl Wakeups {
    /// The invariant: the ticks are in ascending order.
    pub open spec fn wf(&self) -> bool {
        ascending_ticks(self@)
    }

    /// No wakeup is waiting.
    pub fn new() -> (r: Self)
        ensures
            r.wf(),
            r@ == Seq::<Tick>::empty(),
    {
        Wakeups { ticks: Vec::new() }
    }

    /// The number of wakeups waiting.
    pub fn len(&self) -> (r: usize)
        ensures
            r == self@.len(),
    {
        self.ticks.len()
    }

    /// The index of the first tick that is not below `bound`.
    fn first_not_below(&self, bound: Tick) -> (r: usize)
        requires
            self.wf(),
        ensures
            r == count_below(self@, bound as int),
            r <= self@.len(),
    {
        let mut low: usize = 0;
        let mut high: usize = self.ticks.len();
        while low < high
            invariant
                self.wf(),
                0 <= low <= high <= self@.len(),
                forall|j: int| 0 <= j < low ==> self@[j] < bound,
                forall|j: int| high <= j < self@.len() ==> self@[j] >= bound,
            decreases high - low,
        {
            let mid = low + (high - low) / 2;
            if self.ticks[mid] < bound {
                low = mid + 1;
            } else {
                high = mid;
            }
        }
        proof {
            lemma_count_below(self@, bound as int, low as int);
        }
        low
    }

    /// Registers a wakeup at `tick` and returns its place among those
    /// waiting: after the wakeups at earlier ticks, before those at the same
    /// tick and at later ones.
    pub fn register(&mut self, tick: Tick) -> (r: usize)
        requires
            old(self).wf(),
        ensures
            final(self).wf(),
            r == count_below(old(self)@, tick as int),
            r <= old(self)@.len(),
            final(self)@ == old(self)@.insert(r as int, tick),
    {
        let pos = self.first_not_below(tick);
        proof {
            lemma_count_parts(self@, tick as int);
        }
        self.ticks.insert(pos, tick);
        pos
    }

    /// Takes the wakeups that are due at `up_to`, those at ticks up to and
    /// including it, from the front, and returns how many they are.
    pub fn take_due(&mut self, up_to: Tick) -> (r: usize)
        requires
            old(self).wf(),
        ensures
            final(self).wf(),
            r == count_below(old(self)@, up_to + 1),
            r <= old(self)@.len(),
            final(self)@ == old(self)@.skip(r as int),
    {
        let due = if up_to == u64::MAX {
            proof {
                lemma_count_below(self@, up_to + 1, self@.len() as int);
            }
            self.ticks.len()
        } else {
            self.first_not_below(up_to + 1)
        };
        let rest = self.ticks.split_off(due);
        self.ticks = rest;
        due
    }
}

/// The count of the ticks below a bound parts an ascending sequence: the
/// ticks before it lie below the bound, the others do not.
pub proof fn lemma_count_parts(ticks: Seq<Tick>, bound: int)
    requires
        ascending_ticks(ticks),
    ensures
        0 <= count_below(ticks, bound) <= ticks.len(),
        forall|j: int| 0 <= j < count_below(ticks, bound) ==> ticks[j] < bound,
        forall|j: int| count_below(ticks, bound) <= j < ticks.len() ==> ticks[j] >= bound,
    decreases ticks.len(),
{
    if ticks.len() > 0 {
        let front = ticks.drop_last();
        assert(ascending_ticks(front)) by {
            assert forall|i: int, j: int| 0 <= i <= j < front.len() implies front[i] <= front[j] by {
                assert(ticks[i] <= ticks[j]);
            }
        }
        lemma_count_parts(front, bound);
        if ticks.last() < bound {
            assert forall|j: int| 0 <= j < front.len() implies front[j] < bound by {
                assert(ticks[j] <= ticks[ticks.len() - 1]);
            }
            lemma_count_below(front, bound, front.len() as int);
        }
        let count = count_below(ticks, bound);
        assert forall|j: int| 0 <= j < count implies ticks[j] < bound by {
            if j < front.len() {
                assert(front[j] == ticks[j]);
            }
        }
        assert forall|j: int| count <= j < ticks.len() implies ticks[j] >= bound by {
            if j < front.len() {
                assert(front[j] == ticks[j]);
            }
        }
    }
}

} // verus!
