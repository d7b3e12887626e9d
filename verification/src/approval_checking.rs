//! Whether a candidate has been approved under a given block: the walk over
//! the assignment tranches that yields the required tranches, and the
//! predicate that holds the approval votes against them.

use crate::bitfield::{and_bits, count_ones, lemma_count_ones_bound, Bitfield};
use crate::persisted_entries::{
    tranche_views, ApprovalEntry, ApprovalView, CandidateEntry, DelayTranche, TrancheView,
    ValidatorIndex,
};
use crate::time::Tick;
use vstd::prelude::*;

verus! {

/// The tranches of assignments needed to decide whether a candidate is
/// approved.
#[derive(Debug, PartialEq, Eq, Clone, Copy, Structural)]
pub enum RequiredTranches {
    /// All validators appear to be required, going by the tranches already
    /// taken and the no-shows that remain.
    All,
    /// More tranches are required: assignments up to the given tranche should
    /// be broadcast and awaited.
    Pending(DelayTranche),
    /// The assignments up to the given tranche suffice, with the given number
    /// of no-shows among them, all of them covered.
    Exact(DelayTranche, usize),
}

impl RequiredTranches {
    /// The tick at which the approval should be looked at again: a pending
    /// verdict asks for a wakeup when its tranche begins, which is that many
    /// ticks after the block's; the other verdicts ask for none.
    pub fn wakeup_tick(&self, block_tick: Tick) -> (r: Option<Tick>)
        requires
            self@ matches Verdict::Pending(tranche) ==> block_tick + tranche <= u64::MAX,
        ensures
            r == match self@ {
                Verdict::Pending(tranche) => Some((block_tick + tranche) as Tick),
                _ => None,
            },
    {
        match *self {
            RequiredTranches::Pending(tranche) => Some(block_tick + tranche as Tick),
            _ => None,
        }
    }
}

/// A verdict over unbounded integers: what a [`RequiredTranches`] stands for.
pub enum Verdict {
    All,
    Pending(int),
    Exact(int, int),
}

impl View for RequiredTranches {
    type V = Verdict;

    open spec fn view(&self) -> Verdict {
        match *self {
            RequiredTranches::All => Verdict::All,
            RequiredTranches::Pending(t) => Verdict::Pending(t as int),
            RequiredTranches::Exact(t, k) => Verdict::Exact(t as int, k as int),
        }
    }
}

/// The state of the walk over the tranches.
pub enum WalkState {
    /// Counting assignments until enough of them are there: the assignments
    /// and the no-shows seen so far.
    InitialCount { assignments: int, no_shows: int },
    /// Covering no-shows by further non-empty tranches: the assignments seen,
    /// the no-shows covered, those being covered in this round, and those
    /// met during it, which the next round has to cover.
    CoverNoShows { total_assignments: int, covered: int, covering: int, uncovered: int },
}

/// What a walk is given besides the tranches.
pub struct Setting {
    /// The approval votes on record.
    pub approvals: Seq<bool>,
    /// The tranche that the current time corresponds to.
    pub tranche_now: int,
    /// The tick at which the block was produced.
    pub block_tick: int,
    /// How long after its observation an assignment may stay without an
    /// approval before it counts as a no-show.
    pub no_show_duration: int,
    /// The number of assignments wanted at the least.
    pub needed_approvals: int,
    /// The number of validators of the session.
    pub n_validators: int,
}

impl Setting {
    /// The current tick.
    pub open spec fn tick_now(self) -> int {
        self.tranche_now + self.block_tick
    }

    /// Whether the validator's approval vote is on record.
    pub open spec fn has_approved(self, validator: int) -> bool {
        0 <= validator < self.approvals.len() && self.approvals[validator]
    }

    /// An assignment is a no-show when its grace period has run out and no
    /// approval vote has come from its validator.
    pub open spec fn is_no_show(self, assignment: (ValidatorIndex, Tick)) -> bool {
        assignment.1 + self.no_show_duration <= self.tick_now() && !self.has_approved(
            assignment.0 as int,
        )
    }

    /// The number of no-shows among the assignments.
    pub open spec fn count_no_shows(self, assignments: Seq<(ValidatorIndex, Tick)>) -> int
        decreases assignments.len(),
    {
        if assignments.len() == 0 {
            0
        } else {
            self.count_no_shows(assignments.drop_last()) + if self.is_no_show(assignments.last()) {
                1int
            } else {
                0int
            }
        }
    }
}

impl WalkState {
    /// The state at the start of a walk.
    pub open spec fn initial() -> WalkState {
        WalkState::InitialCount { assignments: 0, no_shows: 0 }
    }

    /// The state after a tranche with `n_assignments` assignments, `no_shows`
    /// of them no-shows.
    pub open spec fn advance(self, n_assignments: int, no_shows: int, needed_approvals: int)
        -> WalkState {
        match self {
            WalkState::InitialCount { assignments, no_shows: so_far } => {
                let assignments = assignments + n_assignments;
                let no_shows = so_far + no_shows;
                if assignments >= needed_approvals && no_shows > 0 {
                    WalkState::CoverNoShows {
                        total_assignments: assignments,
                        covered: 0,
                        covering: no_shows,
                        uncovered: 0,
                    }
                } else {
                    WalkState::InitialCount { assignments, no_shows }
                }
            },
            WalkState::CoverNoShows { total_assignments, covered, covering, uncovered } => {
                let uncovered = uncovered + no_shows;
                let total_assignments = total_assignments + n_assignments;
                if n_assignments == 0 {
                    WalkState::CoverNoShows { total_assignments, covered, covering, uncovered }
                } else if covering == 1 {
                    WalkState::CoverNoShows {
                        total_assignments,
                        covered: covered + 1,
                        covering: uncovered,
                        uncovered: 0,
                    }
                } else {
                    WalkState::CoverNoShows {
                        total_assignments,
                        covered: covered + 1,
                        covering: covering - 1,
                        uncovered,
                    }
                }
            },
        }
    }

    /// The verdict of a walk that stands in this state after `tranche`.
    pub open spec fn output(self, tranche: int, s: Setting) -> Verdict {
        match self {
            WalkState::InitialCount { assignments, no_shows } => {
                if assignments >= s.needed_approvals && no_shows == 0 {
                    Verdict::Exact(tranche, 0)
                } else {
                    Verdict::Pending(s.tranche_now)
                }
            },
            WalkState::CoverNoShows { total_assignments, covered, covering, uncovered } => {
                if covering == 0 && uncovered == 0 {
                    Verdict::Exact(tranche, covered)
                } else if total_assignments + covering + uncovered >= s.n_validators {
                    Verdict::All
                } else {
                    Verdict::Pending(tranche + covering + uncovered)
                }
            },
        }
    }
}

/// The verdict of the walk that stands before the `i`-th tranche entry in
/// `state`, with `last` the verdict after the entry before. The walk takes the
/// entries in order while their tranche is not after the current one, and
/// ends at the first verdict that is not pending.
pub open spec fn walk_from(
    ts: Seq<TrancheView>,
    i: int,
    state: WalkState,
    last: Verdict,
    s: Setting,
) -> Verdict
    decreases ts.len() - i,
{
    if i < 0 || i >= ts.len() || ts[i].tranche > s.tranche_now {
        last
    } else {
        let next = state.advance(
            ts[i].assignments.len() as int,
            s.count_no_shows(ts[i].assignments),
            s.needed_approvals,
        );
        let verdict = next.output(ts[i].tranche as int, s);
        if verdict is Pending {
            walk_from(ts, i + 1, next, verdict, s)
        } else {
            verdict
        }
    }
}

/// The tranches required for approval: the verdict of the whole walk. With no
/// tranche at or before the current one it is pending at the current tranche.
pub open spec fn required_tranches(ts: Seq<TrancheView>, s: Setting) -> Verdict {
    walk_from(ts, 0, WalkState::initial(), Verdict::Pending(s.tranche_now), s)
}

/// Whether the approval votes meet a verdict. A pending verdict never does.
/// `All` asks for strictly more than two thirds of the validators. `Exact`
/// asks that of the validators assigned up to its tranche all have approved
/// but as many as it allows as no-shows.
pub open spec fn approval_holds(approvals: Seq<bool>, entry: ApprovalView, verdict: Verdict)
    -> bool {
    match verdict {
        Verdict::Pending(_) => false,
        Verdict::All => 3 * count_ones(approvals) > 2 * approvals.len(),
        Verdict::Exact(tranche, no_shows) => {
            let mask = entry.mask_up_to(tranche);
            count_ones(and_bits(mask, approvals)) + no_shows >= count_ones(mask)
        },
    }
}

/// Checks the approval of a candidate under a block against the required
/// tranches.
pub fn check_approval(
    candidate: &CandidateEntry,
    approval: &ApprovalEntry,
    required: RequiredTranches,
) -> (r: bool)
    requires
        approval.wf(),
        candidate@.approvals.len() == approval@.assignments.len(),
    ensures
        r == approval_holds(candidate@.approvals, approval@, required@),
{
    match required {
        RequiredTranches::Pending(_) => false,
        RequiredTranches::All => {
            let approvals = candidate.approvals();
            let len = approvals.len();
            let ones = approvals.count_ones();
            proof {
                lemma_count_ones_bound(approvals@);
            }
            3 * ones > 2 * len
        },
        RequiredTranches::Exact(tranche, no_shows) => {
            let mut assigned_mask = approval.assignments_up_to(tranche);
            let approvals = candidate.approvals();
            let n_assigned = assigned_mask.count_ones();
            assigned_mask.intersect(approvals);
            let n_approved = assigned_mask.count_ones();
            n_approved as u128 + no_shows as u128 >= n_assigned as u128
        },
    }
}

/// Holds the approval votes against the required tranches and marks the
/// candidate approved under the block where they meet them. A candidate that
/// is marked approved stays so, whatever the votes and the verdict. Returns
/// whether the candidate is marked approved afterwards.
pub fn mark_if_approved(
    candidate: &CandidateEntry,
    approval: &mut ApprovalEntry,
    required: RequiredTranches,
) -> (r: bool)
    requires
        old(approval).wf(),
        candidate@.approvals.len() == old(approval)@.assignments.len(),
    ensures
        final(approval).wf(),
        r == (old(approval)@.approved || approval_holds(
            candidate@.approvals,
            old(approval)@,
            required@,
        )),
        final(approval)@ == (ApprovalView { approved: r, ..old(approval)@ }),
{
    if approval.is_approved() {
        true
    } else if check_approval(candidate, approval, required) {
        approval.mark_approved();
        true
    } else {
        false
    }
}

/// The walk's state as the executable code holds it. The counters are wide
/// enough for any number of assignments that memory can hold.
enum State {
    InitialCount(u128, u128),
    CoverNoShows(u128, u128, u128, u128),
}

impl View for State {
    type V = WalkState;

    closed spec fn view(&self) -> WalkState {
        match *self {
            State::InitialCount(assignments, no_shows) => WalkState::InitialCount {
                assignments: assignments as int,
                no_shows: no_shows as int,
            },
            State::CoverNoShows(total_assignments, covered, covering, uncovered) => {
                WalkState::CoverNoShows {
                    total_assignments: total_assignments as int,
                    covered: covered as int,
                    covering: covering as int,
                    uncovered: uncovered as int,
                }
            },
        }
    }
}

impl WalkState {
    /// After `steps` tranches, none with more than `usize::MAX` assignments,
    /// every counter is bounded: the assignments and the outstanding no-shows
    /// by what the tranches can hold, the covered no-shows by the number of
    /// tranches.
    pub open spec fn bounded(self, steps: int) -> bool {
        match self {
            WalkState::InitialCount { assignments, no_shows } => {
                0 <= assignments <= steps * usize::MAX && 0 <= no_shows <= steps * usize::MAX
            },
            WalkState::CoverNoShows { total_assignments, covered, covering, uncovered } => {
                &&& 0 <= total_assignments <= steps * usize::MAX
                &&& 0 <= covered <= steps
                &&& 0 <= covering
                &&& 0 <= uncovered
                &&& covering + uncovered <= steps * usize::MAX
            },
        }
    }

    /// While no-shows are being covered and the walk goes on, at least one is
    /// being covered in the current round.
    pub open spec fn live(self) -> bool {
        match self {
            WalkState::InitialCount { .. } => true,
            WalkState::CoverNoShows { covering, .. } => covering >= 1,
        }
    }
}

/// A step of the walk keeps the counters bounded.
proof fn lemma_advance_bounded(
    state: WalkState,
    steps: int,
    n_assignments: int,
    no_shows: int,
    needed_approvals: int,
)
    requires
        state.bounded(steps),
        state.live(),
        0 <= steps,
        0 <= no_shows <= n_assignments <= usize::MAX,
    ensures
        state.advance(n_assignments, no_shows, needed_approvals).bounded(steps + 1),
{
    assert((steps + 1) * usize::MAX == steps * usize::MAX + usize::MAX) by (nonlinear_arith);
}

/// As many steps as a vector has entries leave the counters within 128 bits,
/// with room for one more tranche.
proof fn lemma_bounded_fits(state: WalkState, steps: int)
    requires
        state.bounded(steps),
        0 <= steps <= usize::MAX,
    ensures
        state.bounded(0xffff_ffff_ffff_ffff),
        0xffff_ffff_ffff_ffff * usize::MAX + usize::MAX <= u128::MAX,
{
    let max = usize::MAX as int;
    assert(steps * max <= 0xffff_ffff_ffff_ffff * max) by (nonlinear_arith)
        requires
            0 <= steps <= 0xffff_ffff_ffff_ffff,
            0 <= max,
    ;
    assert(0xffff_ffff_ffff_ffff * max <= 0xffff_ffff_ffff_fffe_0000_0000_0000_0001)
        by (nonlinear_arith)
        requires
            0 <= max <= 0xffff_ffff_ffff_ffff,
    ;
}

/// Counts the no-shows among the assignments of one tranche.
fn count_no_shows(
    assignments: &[(ValidatorIndex, Tick)],
    approvals: &Bitfield,
    tranche_now: DelayTranche,
    block_tick: Tick,
    no_show_duration: Tick,
    Ghost(s): Ghost<Setting>,
) -> (r: usize)
    requires
        s.approvals == approvals@,
        s.tranche_now == tranche_now,
        s.block_tick == block_tick,
        s.no_show_duration == no_show_duration,
    ensures
        r == s.count_no_shows(assignments@),
        r <= assignments@.len(),
{
    let tick_now: u128 = tranche_now as u128 + block_tick as u128;
    let mut count: usize = 0;
    let mut k: usize = 0;
    while k < assignments.len()
        invariant
            0 <= k <= assignments@.len(),
            count <= k,
            count == s.count_no_shows(assignments@.take(k as int)),
            tick_now == s.tick_now(),
            s.approvals == approvals@,
            s.no_show_duration == no_show_duration,
        decreases assignments.len() - k,
    {
        let (validator, tick) = assignments[k];
        let late = tick as u128 + no_show_duration as u128 <= tick_now;
        let approved = approvals.is_set(validator as usize);
        proof {
            assert(assignments@.take(k as int + 1).drop_last() =~= assignments@.take(k as int));
        }
        if late && !approved {
            count = count + 1;
        }
        k = k + 1;
    }
    proof {
        assert(assignments@.take(k as int) =~= assignments@);
    }
    count
}

impl State {
    /// The state after a tranche with `n_assignments` assignments, `no_shows`
    /// of them no-shows.
    fn advance(
        self,
        n_assignments: usize,
        no_shows: usize,
        needed_approvals: usize,
        Ghost(steps): Ghost<int>,
    ) -> (r: State)
        requires
            self@.bounded(steps),
            self@.live(),
            0 <= steps < usize::MAX,
            no_shows <= n_assignments,
        ensures
            r@ == self@.advance(n_assignments as int, no_shows as int, needed_approvals as int),
            r@.bounded(steps + 1),
            r@.live() || (r@ matches WalkState::CoverNoShows { covering, uncovered, .. } && covering
                == 0 && uncovered == 0),
    {
        proof {
            lemma_bounded_fits(self@, steps);
            lemma_advance_bounded(
                self@,
                steps,
                n_assignments as int,
                no_shows as int,
                needed_approvals as int,
            );
        }
        match self {
            State::InitialCount(total_assignments, no_shows_so_far) => {
                let no_shows = no_shows as u128 + no_shows_so_far;
                let total_assignments = total_assignments + n_assignments as u128;
                if total_assignments >= needed_approvals as u128 && no_shows > 0 {
                    State::CoverNoShows(total_assignments, 0, no_shows, 0)
                } else {
                    State::InitialCount(total_assignments, no_shows)
                }
            },
            State::CoverNoShows(total_assignments, covered, covering, uncovered) => {
                let uncovered = no_shows as u128 + uncovered;
                let total_assignments = total_assignments + n_assignments as u128;
                if n_assignments == 0 {
                    State::CoverNoShows(total_assignments, covered, covering, uncovered)
                } else if covering == 1 {
                    State::CoverNoShows(total_assignments, covered + 1, uncovered, 0)
                } else {
                    State::CoverNoShows(total_assignments, covered + 1, covering - 1, uncovered)
                }
            },
        }
    }

    /// The verdict of a walk that stands in this state after `tranche`.
    fn output(
        &self,
        tranche: DelayTranche,
        tranche_now: DelayTranche,
        needed_approvals: usize,
        n_validators: usize,
        Ghost(s): Ghost<Setting>,
        Ghost(steps): Ghost<int>,
    ) -> (r: RequiredTranches)
        requires
            self@.bounded(steps),
            0 <= steps <= usize::MAX,
            tranche <= tranche_now,
            tranche_now + n_validators <= u32::MAX,
            s.tranche_now == tranche_now,
            s.needed_approvals == needed_approvals,
            s.n_validators == n_validators,
        ensures
            r@ == self@.output(tranche as int, s),
    {
        proof {
            lemma_bounded_fits(self@, steps);
        }
        match *self {
            State::InitialCount(assignments, no_shows) => {
                if assignments >= needed_approvals as u128 && no_shows == 0 {
                    RequiredTranches::Exact(tranche, 0)
                } else {
                    RequiredTranches::Pending(tranche_now)
                }
            },
            State::CoverNoShows(total_assignments, covered, covering, uncovered) => {
                if covering == 0 && uncovered == 0 {
                    RequiredTranches::Exact(tranche, covered as usize)
                } else if total_assignments >= n_validators as u128 || covering + uncovered
                    >= n_validators as u128 - total_assignments {
                    RequiredTranches::All
                } else {
                    RequiredTranches::Pending(tranche + (covering + uncovered) as DelayTranche)
                }
            },
        }
    }
}

/// Determines the tranches of assignments needed to decide the approval of a
/// candidate: walks the tranche entries up to the current tranche, counts
/// assignments until `needed_approvals` are there, and then has every no-show
/// covered by a further non-empty tranche.
///
/// The tranche handed back by a pending verdict lies below
/// `tranche_now + n_validators`, which has to fit a `DelayTranche`.
pub fn tranches_to_approve(
    approval_entry: &ApprovalEntry,
    approvals: &Bitfield,
    tranche_now: DelayTranche,
    block_tick: Tick,
    no_show_duration: Tick,
    needed_approvals: usize,
) -> (r: RequiredTranches)
    requires
        tranche_now + approval_entry@.assignments.len() <= u32::MAX,
    ensures
        r@ == required_tranches(
            approval_entry@.tranches,
            (Setting {
                approvals: approvals@,
                tranche_now: tranche_now as int,
                block_tick: block_tick as int,
                no_show_duration: no_show_duration as int,
                needed_approvals: needed_approvals as int,
                n_validators: approval_entry@.assignments.len() as int,
            }),
        ),
{
    let ghost s = Setting {
        approvals: approvals@,
        tranche_now: tranche_now as int,
        block_tick: block_tick as int,
        no_show_duration: no_show_duration as int,
        needed_approvals: needed_approvals as int,
        n_validators: approval_entry@.assignments.len() as int,
    };
    let n_validators = approval_entry.n_validators();
    let tranches = approval_entry.tranches();
    let ghost ts = approval_entry@.tranches;
    let mut state = State::InitialCount(0, 0);
    let mut last = RequiredTranches::Pending(tranche_now);
    let mut i: usize = 0;
    while i < tranches.len()
        invariant
            ts == tranche_views(tranches@),
            0 <= i <= tranches@.len(),
            state@.bounded(i as int),
            state@.live(),
            ts == approval_entry@.tranches,
            s == (Setting {
                approvals: approvals@,
                tranche_now: tranche_now as int,
                block_tick: block_tick as int,
                no_show_duration: no_show_duration as int,
                needed_approvals: needed_approvals as int,
                n_validators: approval_entry@.assignments.len() as int,
            }),
            required_tranches(ts, s) == walk_from(ts, i as int, state@, last@, s),
            n_validators == approval_entry@.assignments.len(),
            tranche_now + n_validators <= u32::MAX,
        decreases tranches.len() - i,
    {
        let entry = &tranches[i];
        assert(entry@ == ts[i as int]);
        let tranche = entry.tranche();
        if tranche > tranche_now {
            return last;
        }
        let assignments = entry.assignments();
        let n_assignments = assignments.len();
        let no_shows = count_no_shows(
            assignments,
            approvals,
            tranche_now,
            block_tick,
            no_show_duration,
            Ghost(s),
        );
        state = state.advance(n_assignments, no_shows, needed_approvals, Ghost(i as int));
        let output = state.output(
            tranche,
            tranche_now,
            needed_approvals,
            n_validators,
            Ghost(s),
            Ghost(i as int + 1),
        );
        match output {
            RequiredTranches::Pending(_) => {
                last = output;
            },
            _ => {
                return output;
            },
        }
        i = i + 1;
    }
    last
}

} // verus!
