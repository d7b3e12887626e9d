//! What holds of the approval check in general, proved over the models that
//! its contracts speak of.

use crate::approval_checking::{
    approval_holds, required_tranches, walk_from, RequiredTranches, Setting, Verdict, WalkState,
};
use crate::bitfield::{
    and_bits, count_ones, lacking_bits, lemma_count_ones_monotone, lemma_count_ones_split,
};
use crate::persisted_entries::{ApprovalView, TrancheView, ValidatorIndex};
use crate::time::Tick;
use vstd::prelude::*;

verus! {

/// A pending verdict never approves, whatever the votes.
pub proof fn lemma_pending_never_approves(approvals: Seq<bool>, entry: ApprovalView, tranche: int)
    ensures
        !approval_holds(approvals, entry, Verdict::Pending(tranche)),
{
}

/// Under an exact verdict the approval holds if and only if, of the
/// validators assigned up to its tranche, no more lack an approval vote than
/// the verdict allows as no-shows.
pub proof fn lemma_exact_allows_no_shows(
    approvals: Seq<bool>,
    entry: ApprovalView,
    tranche: int,
    no_shows: int,
)
    ensures
        approval_holds(approvals, entry, Verdict::Exact(tranche, no_shows)) <==> count_ones(
            lacking_bits(entry.mask_up_to(tranche), approvals),
        ) <= no_shows,
{
    lemma_count_ones_split(entry.mask_up_to(tranche), approvals);
}

/// The approval check is monotone in the approval votes: where it holds of
/// some votes, it holds of any votes that include them.
pub proof fn lemma_approval_monotone(
    fewer: Seq<bool>,
    more: Seq<bool>,
    entry: ApprovalView,
    verdict: Verdict,
)
    requires
        fewer.len() == more.len(),
        forall|i: int| 0 <= i < fewer.len() && fewer[i] ==> more[i],
        approval_holds(fewer, entry, verdict),
    ensures
        approval_holds(more, entry, verdict),
{
    match verdict {
        Verdict::Pending(_) => {},
        Verdict::All => {
            lemma_count_ones_monotone(fewer, more);
        },
        Verdict::Exact(tranche, _) => {
            let mask = entry.mask_up_to(tranche);
            lemma_count_ones_monotone(and_bits(mask, fewer), and_bits(mask, more));
        },
    }
}

/// A walk that stands before the `i`-th entry sees nothing of the entries
/// from the `n`-th on where these lie after the current tranche: two lists
/// that agree before `n` give the same verdict.
proof fn lemma_walk_agrees(
    a: Seq<TrancheView>,
    b: Seq<TrancheView>,
    n: int,
    i: int,
    state: WalkState,
    last: Verdict,
    s: Setting,
)
    requires
        0 <= i <= n,
        n <= a.len(),
        n <= b.len(),
        forall|j: int| 0 <= j < n ==> a[j] == b[j],
        n < a.len() ==> a[n].tranche > s.tranche_now,
        n < b.len() ==> b[n].tranche > s.tranche_now,
    ensures
        walk_from(a, i, state, last, s) == walk_from(b, i, state, last, s),
    decreases n - i,
{
    if i < n && a[i].tranche <= s.tranche_now {
        let next = state.advance(
            a[i].assignments.len() as int,
            s.count_no_shows(a[i].assignments),
            s.needed_approvals,
        );
        let verdict = next.output(a[i].tranche as int, s);
        if verdict is Pending {
            lemma_walk_agrees(a, b, n, i + 1, next, verdict, s);
        }
    }
}

/// The required tranches depend only on the tranche entries up to the current
/// tranche: two lists in ascending order that hold the same entries up to it
/// give the same verdict, whatever they hold after it. `n` is the number of
/// entries that they share.
pub proof fn lemma_only_tranches_up_to_now(
    a: Seq<TrancheView>,
    b: Seq<TrancheView>,
    n: int,
    s: Setting,
)
    requires
        0 <= n <= a.len(),
        n <= b.len(),
        a.take(n) == b.take(n),
        forall|j: int| n <= j < a.len() ==> a[j].tranche > s.tranche_now,
        forall|j: int| n <= j < b.len() ==> b[j].tranche > s.tranche_now,
    ensures
        required_tranches(a, s) == required_tranches(b, s),
{
    assert forall|j: int| 0 <= j < n implies a[j] == b[j] by {
        assert(a.take(n)[j] == a[j]);
        assert(b.take(n)[j] == b[j]);
    }
    lemma_walk_agrees(a, b, n, 0, WalkState::initial(), Verdict::Pending(s.tranche_now), s);
}

/// The verdict is a function of the inputs: two results for the same tranche
/// entries and the same setting are one and the same.
pub proof fn lemma_verdict_determined(
    first: RequiredTranches,
    second: RequiredTranches,
    ts: Seq<TrancheView>,
    s: Setting,
)
    requires
        first@ == required_tranches(ts, s),
        second@ == required_tranches(ts, s),
    ensures
        first == second,
{
}

/// With no tranche entry the verdict is pending at the current tranche.
pub proof fn lemma_no_tranches_pending(s: Setting)
    ensures
        required_tranches(Seq::<TrancheView>::empty(), s) == Verdict::Pending(s.tranche_now),
{
}

/// The number of assignments in the first `m` tranche entries.
pub open spec fn assignments_through(ts: Seq<TrancheView>, m: int) -> int
    decreases m,
{
    if m <= 0 {
        0
    } else {
        assignments_through(ts, m - 1) + ts[m - 1].assignments.len()
    }
}

/// The number of no-shows in the first `m` tranche entries.
pub open spec fn no_shows_through(ts: Seq<TrancheView>, m: int, s: Setting) -> int
    decreases m,
{
    if m <= 0 {
        0
    } else {
        no_shows_through(ts, m - 1, s) + s.count_no_shows(ts[m - 1].assignments)
    }
}

/// An assignment whose validator has approved is no no-show, so assignments
/// of validators that all have approved hold none.
pub proof fn lemma_approved_are_no_no_shows(s: Setting, assignments: Seq<(ValidatorIndex, Tick)>)
    requires
        forall|k: int| 0 <= k < assignments.len() ==> s.has_approved(assignments[k].0 as int),
    ensures
        s.count_no_shows(assignments) == 0,
    decreases assignments.len(),
{
    if assignments.len() > 0 {
        lemma_approved_are_no_no_shows(s, assignments.drop_last());
    }
}

/// While the assignments counted stay below the number needed, the walk
/// stays in its initial count and its verdict stays pending at the current
/// tranche.
proof fn lemma_initial_count(ts: Seq<TrancheView>, m: int, s: Setting)
    requires
        0 <= m <= ts.len(),
        forall|i: int| 0 <= i < m ==> ts[i].tranche <= s.tranche_now,
        m == 0 || assignments_through(ts, m) < s.needed_approvals,
    ensures
        required_tranches(ts, s) == walk_from(
            ts,
            m,
            WalkState::InitialCount {
                assignments: assignments_through(ts, m),
                no_shows: no_shows_through(ts, m, s),
            },
            Verdict::Pending(s.tranche_now),
            s,
        ),
    decreases m,
{
    if m > 0 {
        lemma_initial_count(ts, m - 1, s);
    }
}

/// Where the assignments first reach the number needed at the `m`-th tranche
/// entry, which is not after the current tranche, and no assignment up to it
/// is a no-show, the verdict is exact at that entry's tranche, with no
/// no-show.
pub proof fn lemma_exact_without_no_shows(ts: Seq<TrancheView>, m: int, s: Setting)
    requires
        0 <= m < ts.len(),
        forall|i: int| 0 <= i <= m ==> ts[i].tranche <= s.tranche_now,
        m == 0 || assignments_through(ts, m) < s.needed_approvals,
        assignments_through(ts, m + 1) >= s.needed_approvals,
        no_shows_through(ts, m + 1, s) == 0,
    ensures
        required_tranches(ts, s) == Verdict::Exact(ts[m].tranche as int, 0),
{
    lemma_initial_count(ts, m, s);
}

/// With no approval needed, a first tranche entry that is not after the
/// current tranche and holds no no-show makes the verdict exact at its
/// tranche.
pub proof fn lemma_none_needed(ts: Seq<TrancheView>, s: Setting)
    requires
        ts.len() > 0,
        ts[0].tranche <= s.tranche_now,
        s.count_no_shows(ts[0].assignments) == 0,
        s.needed_approvals == 0,
    ensures
        required_tranches(ts, s) == Verdict::Exact(ts[0].tranche as int, 0),
{
    assert(assignments_through(ts, 0) == 0);
    assert(assignments_through(ts, 1) >= 0) by {
        assert(assignments_through(ts, 1) == assignments_through(ts, 0) + ts[0].assignments.len());
    }
    assert(no_shows_through(ts, 1, s) == 0) by {
        assert(no_shows_through(ts, 0, s) == 0);
    }
    lemma_exact_without_no_shows(ts, 0, s);
}

/// Where every validator assigned up to the `m`-th tranche entry has
/// approved, and the assignments first reach the number needed at that entry,
/// the verdict is exact at its tranche, with no no-show. With all validators
/// assigned and approved and all of them needed, `m` is the last entry that
/// is not after the current tranche.
pub proof fn lemma_exact_when_all_approved(ts: Seq<TrancheView>, m: int, s: Setting)
    requires
        0 <= m < ts.len(),
        forall|i: int| 0 <= i <= m ==> ts[i].tranche <= s.tranche_now,
        forall|i: int, k: int|
            0 <= i <= m && 0 <= k < ts[i].assignments.len() ==> s.has_approved(
                #[trigger] ts[i].assignments[k].0 as int,
            ),
        m == 0 || assignments_through(ts, m) < s.needed_approvals,
        assignments_through(ts, m + 1) >= s.needed_approvals,
    ensures
        required_tranches(ts, s) == Verdict::Exact(ts[m].tranche as int, 0),
{
    lemma_no_shows_through_zero(ts, m + 1, s);
    lemma_exact_without_no_shows(ts, m, s);
}

/// Tranche entries whose validators all have approved hold no no-show.
proof fn lemma_no_shows_through_zero(ts: Seq<TrancheView>, m: int, s: Setting)
    requires
        0 <= m <= ts.len(),
        forall|i: int, k: int|
            0 <= i < m && 0 <= k < ts[i].assignments.len() ==> s.has_approved(
                #[trigger] ts[i].assignments[k].0 as int,
            ),
    ensures
        no_shows_through(ts, m, s) == 0,
    decreases m,
{
    if m > 0 {
        lemma_no_shows_through_zero(ts, m - 1, s);
        lemma_approved_are_no_no_shows(s, ts[m - 1].assignments);
    }
}

/// Where the assignments first reach the number needed at the `m`-th tranche
/// entry, which is not after the current tranche, with no-shows among them,
/// and assignments and no-shows together reach the number of validators, all
/// validators are required. So it is where no validator has approved, every
/// assignment is past its grace period and the no-shows alone reach the
/// number of validators.
pub proof fn lemma_all_when_no_shows_reach_validators(ts: Seq<TrancheView>, m: int, s: Setting)
    requires
        0 <= m < ts.len(),
        forall|i: int| 0 <= i <= m ==> ts[i].tranche <= s.tranche_now,
        m == 0 || assignments_through(ts, m) < s.needed_approvals,
        assignments_through(ts, m + 1) >= s.needed_approvals,
        no_shows_through(ts, m + 1, s) >= 1,
        assignments_through(ts, m + 1) + no_shows_through(ts, m + 1, s) >= s.n_validators,
    ensures
        required_tranches(ts, s) == Verdict::All,
{
    lemma_initial_count(ts, m, s);
}

/// Assignments that are all past their grace period, of validators none of
/// which has approved, are no-shows all.
pub proof fn lemma_late_unapproved_are_no_shows(
    s: Setting,
    assignments: Seq<(ValidatorIndex, Tick)>,
)
    requires
        forall|k: int|
            0 <= k < assignments.len() ==> (#[trigger] assignments[k]).1 + s.no_show_duration
                <= s.tick_now() && !s.has_approved(assignments[k].0 as int),
    ensures
        s.count_no_shows(assignments) == assignments.len(),
    decreases assignments.len(),
{
    if assignments.len() > 0 {
        lemma_late_unapproved_are_no_shows(s, assignments.drop_last());
    }
}

/// Tranche entries whose assignments are all no-shows hold as many no-shows
/// as assignments.
proof fn lemma_no_shows_through_all(ts: Seq<TrancheView>, m: int, s: Setting)
    requires
        0 <= m <= ts.len(),
        forall|i: int, k: int|
            0 <= i < m && 0 <= k < ts[i].assignments.len() ==> (
            #[trigger] ts[i].assignments[k]).1 + s.no_show_duration <= s.tick_now()
                && !s.has_approved(ts[i].assignments[k].0 as int),
    ensures
        no_shows_through(ts, m, s) == assignments_through(ts, m),
    decreases m,
{
    if m > 0 {
        lemma_no_shows_through_all(ts, m - 1, s);
        lemma_late_unapproved_are_no_shows(s, ts[m - 1].assignments);
    }
}

/// All assignments of the tranche entries from the `from`-th to the `to`-th
/// are past their grace period, and of validators that have not approved.
pub open spec fn all_no_shows(ts: Seq<TrancheView>, from: int, to: int, s: Setting) -> bool {
    forall|i: int, k: int|
        from <= i <= to && 0 <= k < ts[i].assignments.len() ==> (
        #[trigger] ts[i].assignments[k]).1 + s.no_show_duration <= s.tick_now() && !s.has_approved(
            ts[i].assignments[k].0 as int,
        )
}

/// While no-shows are being covered by tranche entries that hold nothing but
/// no-shows, some no-show stays to be covered, and the walk ends with all
/// validators required once the assignments reach their number.
proof fn lemma_cover_never_ends(
    ts: Seq<TrancheView>,
    i: int,
    last_entry: int,
    state: WalkState,
    last: Verdict,
    s: Setting,
)
    requires
        0 <= i <= last_entry < ts.len(),
        forall|j: int| i <= j <= last_entry ==> ts[j].tranche <= s.tranche_now,
        all_no_shows(ts, i, last_entry, s),
        state matches WalkState::CoverNoShows { total_assignments, covering, uncovered, .. }
            && total_assignments == assignments_through(ts, i) && covering >= 1 && uncovered >= 0,
        assignments_through(ts, last_entry + 1) >= s.n_validators,
    ensures
        walk_from(ts, i, state, last, s) == Verdict::All,
    decreases last_entry - i,
{
    lemma_late_unapproved_are_no_shows(s, ts[i].assignments);
    let next = state.advance(
        ts[i].assignments.len() as int,
        s.count_no_shows(ts[i].assignments),
        s.needed_approvals,
    );
    let verdict = next.output(ts[i].tranche as int, s);
    if i < last_entry {
        if verdict is Pending {
            lemma_cover_never_ends(ts, i + 1, last_entry, next, verdict, s);
        }
    }
}

/// Where no validator assigned up to the `last_entry`-th tranche entry has
/// approved and all their assignments are past the grace period, so that all
/// are no-shows, where none of these entries is after the current tranche,
/// and where the no-shows reach the number of validators, all validators are
/// required. The assignments must reach the number needed, at the `m`-th
/// entry first, and there must be an assignment by then: short of the number
/// needed the verdict is pending, and with none needed and a first tranche
/// entry without assignments it is exact.
pub proof fn lemma_all_when_nobody_approved(
    ts: Seq<TrancheView>,
    m: int,
    last_entry: int,
    s: Setting,
)
    requires
        0 <= m <= last_entry < ts.len(),
        forall|i: int| 0 <= i <= last_entry ==> ts[i].tranche <= s.tranche_now,
        all_no_shows(ts, 0, last_entry, s),
        m == 0 || assignments_through(ts, m) < s.needed_approvals,
        assignments_through(ts, m + 1) >= s.needed_approvals,
        assignments_through(ts, m + 1) >= 1,
        assignments_through(ts, last_entry + 1) >= s.n_validators,
    ensures
        required_tranches(ts, s) == Verdict::All,
{
    lemma_no_shows_through_all(ts, m + 1, s);
    lemma_initial_count(ts, m, s);
    if m < last_entry {
        let before = WalkState::InitialCount {
            assignments: assignments_through(ts, m),
            no_shows: no_shows_through(ts, m, s),
        };
        let next = before.advance(
            ts[m].assignments.len() as int,
            s.count_no_shows(ts[m].assignments),
            s.needed_approvals,
        );
        let verdict = next.output(ts[m].tranche as int, s);
        if verdict is Pending {
            lemma_cover_never_ends(ts, m + 1, last_entry, next, verdict, s);
        }
    }
}

} // verus!
