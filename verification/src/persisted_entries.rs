//! The entries kept per candidate and per (block, candidate): who was assigned
//! to check at which tranche, and who has approved.

use crate::bitfield::Bitfield;
use crate::time::Tick;
use vstd::prelude::*;

verus! {

/// The wave in which a validator is obliged to check; tranche `t` of a block
/// activates at the block's tick plus `t`.
pub type DelayTranche = u32;

/// The index of a validator within the session's validator set.
pub type ValidatorIndex = u32;

/// The index of a backing group.
pub type GroupIndex = u32;

/// The index of a session.
pub type SessionIndex = u32;

/// The assignments observed at one tranche, each with the tick at which it was
/// observed.
#[derive(Clone)]
pub struct TrancheEntry {
    tranche: DelayTranche,
    assignments: Vec<(ValidatorIndex, Tick)>,
}

/// The mathematical content of a [`TrancheEntry`].
pub struct TrancheView {
    pub tranche: DelayTranche,
    pub assignments: Seq<(ValidatorIndex, Tick)>,
}

impl View for TrancheEntry {
    type V = TrancheView;

    closed spec fn view(&self) -> TrancheView {
        TrancheView { tranche: self.tranche, assignments: self.assignments@ }
    }
}

/// The views of a sequence of tranche entries, in the same order.
pub open spec fn tranche_views(entries: Seq<TrancheEntry>) -> Seq<TrancheView> {
    Seq::new(entries.len(), |i: int| entries[i]@)
}

impl TrancheEntry {
    /// The entry of `tranche` with the assignments given.
    pub fn new(tranche: DelayTranche, assignments: Vec<(ValidatorIndex, Tick)>) -> (r: Self)
        ensures
            r@ == (TrancheView { tranche, assignments: assignments@ }),
    {
        TrancheEntry { tranche, assignments }
    }

    /// The tranche that the assignments belong to.
    pub fn tranche(&self) -> (r: DelayTranche)
        ensures
            r == self@.tranche,
    {
        self.tranche
    }

    /// The assigned validators, each with the tick at which the assignment was
    /// observed, in the order of their import.
    pub fn assignments(&self) -> (r: &[(ValidatorIndex, Tick)])
        ensures
            r@ == self@.assignments,
    {
        self.assignments.as_slice()
    }
}

/// Validator `v` is the `k`-th assignment of the `i`-th tranche entry.
pub open spec fn has_assignment(ts: Seq<TrancheView>, i: int, k: int, v: int) -> bool {
    0 <= i < ts.len() && 0 <= k < ts[i].assignments.len() && ts[i].assignments[k].0 == v
}

/// Validator `v` is assigned at some tranche.
pub open spec fn assigned(ts: Seq<TrancheView>, v: int) -> bool {
    exists|i: int, k: int| #[trigger] has_assignment(ts, i, k, v)
}

/// Validator `v` is assigned at some tranche not after `tranche`.
pub open spec fn assigned_up_to(ts: Seq<TrancheView>, tranche: int, v: int) -> bool {
    exists|i: int, k: int| #[trigger] has_assignment(ts, i, k, v) && ts[i].tranche <= tranche
}

/// The tranche entries are in strictly ascending order of tranche.
pub open spec fn ascending(ts: Seq<TrancheView>) -> bool {
    forall|i: int, j: int| 0 <= i < j < ts.len() ==> ts[i].tranche < ts[j].tranche
}

/// No validator has two assignments, within a tranche or across tranches.
pub open spec fn assigned_once(ts: Seq<TrancheView>) -> bool {
    forall|i: int, k: int, j: int, l: int, v: int|
        #[trigger] has_assignment(ts, i, k, v) && #[trigger] has_assignment(ts, j, l, v) ==> i == j
            && k == l
}

/// The bitfield `assignments` marks exactly the validators that `ts` assigns.
pub open spec fn marks_assigned(ts: Seq<TrancheView>, assignments: Seq<bool>) -> bool {
    &&& forall|i: int, k: int, v: int| #[trigger]
        has_assignment(ts, i, k, v) ==> v < assignments.len() && assignments[v]
    &&& forall|v: int| 0 <= v < assignments.len() && #[trigger] assignments[v] ==> assigned(ts, v)
}

/// Position `(a, b)` comes before position `(i, k)`, tranche entry first.
pub open spec fn precedes(a: int, b: int, i: int, k: int) -> bool {
    a < i || (a == i && b < k)
}

/// Validator `v` has an assignment at a position before the `k`-th assignment
/// of the `i`-th tranche entry.
pub open spec fn marked_before(ts: Seq<TrancheView>, i: int, k: int, v: int) -> bool {
    exists|a: int, b: int| #[trigger] has_assignment(ts, a, b, v) && precedes(a, b, i, k)
}

/// The bitfield marks exactly the validators that have an assignment at a
/// position before the `k`-th assignment of the `i`-th tranche entry.
pub open spec fn marks_before(ts: Seq<TrancheView>, i: int, k: int, bits: Seq<bool>) -> bool {
    forall|v: int| 0 <= v < bits.len() ==> (#[trigger] bits[v] <==> marked_before(ts, i, k, v))
}

/// Setting the bit of the validator at a position carries the marks over to
/// the next position.
proof fn lemma_marks_next(ts: Seq<TrancheView>, i: int, k: int, before: Seq<bool>, after: Seq<bool>)
    requires
        0 <= i < ts.len(),
        0 <= k < ts[i].assignments.len(),
        ts[i].assignments[k].0 < before.len(),
        marks_before(ts, i, k, before),
        after == before.update(ts[i].assignments[k].0 as int, true),
    ensures
        marks_before(ts, i, k + 1, after),
{
    let validator = ts[i].assignments[k].0 as int;
    assert forall|v: int| 0 <= v < after.len() implies (#[trigger] after[v] <==> marked_before(
        ts,
        i,
        k + 1,
        v,
    )) by {
        if marked_before(ts, i, k + 1, v) {
            let (a, b) = choose|a: int, b: int| #[trigger]
                has_assignment(ts, a, b, v) && precedes(a, b, i, k + 1);
            if !(a == i && b == k) {
                assert(has_assignment(ts, a, b, v) && precedes(a, b, i, k));
            }
        }
        if marked_before(ts, i, k, v) {
            let (a, b) = choose|a: int, b: int| #[trigger]
                has_assignment(ts, a, b, v) && precedes(a, b, i, k);
            assert(has_assignment(ts, a, b, v) && precedes(a, b, i, k + 1));
        }
        if v == validator {
            assert(has_assignment(ts, i, k, v) && precedes(i, k, i, k + 1));
        }
    }
}

/// The marks before the end of a tranche entry are those before the start
/// of the next.
proof fn lemma_marks_entry_done(ts: Seq<TrancheView>, i: int, bits: Seq<bool>)
    requires
        0 <= i < ts.len(),
        marks_before(ts, i, ts[i].assignments.len() as int, bits),
    ensures
        marks_before(ts, i + 1, 0, bits),
{
    let k = ts[i].assignments.len() as int;
    assert forall|v: int| 0 <= v < bits.len() implies (#[trigger] bits[v] <==> marked_before(
        ts,
        i + 1,
        0,
        v,
    )) by {
        if marked_before(ts, i + 1, 0, v) {
            let (a, b) = choose|a: int, b: int| #[trigger]
                has_assignment(ts, a, b, v) && precedes(a, b, i + 1, 0);
            assert(has_assignment(ts, a, b, v) && precedes(a, b, i, k));
        }
        if marked_before(ts, i, k, v) {
            let (a, b) = choose|a: int, b: int| #[trigger]
                has_assignment(ts, a, b, v) && precedes(a, b, i, k);
            assert(has_assignment(ts, a, b, v) && precedes(a, b, i + 1, 0));
        }
    }
}

/// The index of the first tranche entry at or after `i` whose tranche is not
/// below `tranche`, or the number of entries where there is none.
pub open spec fn position_from(ts: Seq<TrancheView>, i: int, tranche: int) -> int
    decreases ts.len() - i,
{
    if i < 0 || i >= ts.len() || ts[i].tranche >= tranche {
        i
    } else {
        position_from(ts, i + 1, tranche)
    }
}

/// The tranche entries after the import of an assignment of `validator` at
/// `tranche`, observed at `tick`: the assignment is appended to the entry of
/// its tranche, which is created in its place in the order where it is not
/// there.
pub open spec fn imported(
    ts: Seq<TrancheView>,
    tranche: DelayTranche,
    validator: ValidatorIndex,
    tick: Tick,
) -> Seq<TrancheView> {
    let pos = position_from(ts, 0, tranche as int);
    if pos < ts.len() && ts[pos].tranche == tranche {
        ts.update(
            pos,
            TrancheView { tranche, assignments: ts[pos].assignments.push((validator, tick)) },
        )
    } else {
        ts.insert(pos, TrancheView { tranche, assignments: seq![(validator, tick)] })
    }
}

/// Where `position_from` ends: the entries that it passed lie below
/// `tranche`, the entry at which it stopped does not.
pub proof fn lemma_position_from(ts: Seq<TrancheView>, i: int, tranche: int)
    requires
        0 <= i <= ts.len(),
    ensures
        i <= position_from(ts, i, tranche) <= ts.len(),
        forall|j: int| i <= j < position_from(ts, i, tranche) ==> ts[j].tranche < tranche,
        position_from(ts, i, tranche) < ts.len() ==> ts[position_from(ts, i, tranche)].tranche
            >= tranche,
    decreases ts.len() - i,
{
    if i < ts.len() && ts[i].tranche < tranche {
        lemma_position_from(ts, i + 1, tranche);
    }
}

/// The import of an assignment of a validator in range that has none yet
/// keeps an approval entry well formed.
pub proof fn lemma_import_well_formed(
    entry: ApprovalView,
    tranche: DelayTranche,
    validator: ValidatorIndex,
    tick: Tick,
)
    requires
        entry.well_formed(),
        validator < entry.assignments.len(),
        !entry.assignments[validator as int],
    ensures
        (ApprovalView {
            tranches: imported(entry.tranches, tranche, validator, tick),
            assignments: entry.assignments.update(validator as int, true),
            ..entry
        }).well_formed(),
{
    let ts = entry.tranches;
    let new = imported(ts, tranche, validator, tick);
    let bits = entry.assignments.update(validator as int, true);
    let pos = position_from(ts, 0, tranche as int);
    lemma_position_from(ts, 0, tranche as int);
    let merged = pos < ts.len() && ts[pos].tranche == tranche;
    // Where an assignment of the new list was in the old one.
    let back = |i: int| if merged || i < pos { i } else { i - 1 };
    let forth = |i: int| if merged || i < pos { i } else { i + 1 };
    let fresh_k = if merged { ts[pos].assignments.len() as int } else { 0 };
    assert forall|i: int, k: int, v: int| #[trigger] has_assignment(new, i, k, v) implies (i == pos
        && k == fresh_k && v == validator) || has_assignment(ts, back(i), k, v) by {}
    assert forall|i: int, k: int, v: int| #[trigger] has_assignment(ts, i, k, v) implies has_assignment(
        new,
        forth(i),
        k,
        v,
    ) by {}
    assert(has_assignment(new, pos, fresh_k, validator as int));
    assert forall|i: int, k: int, v: int| #[trigger] has_assignment(ts, i, k, v) implies v
        != validator by {}
    assert(ascending(new)) by {
        assert forall|i: int, j: int| 0 <= i < j < new.len() implies new[i].tranche
            < new[j].tranche by {
            if merged {
                assert(ts[i].tranche < ts[j].tranche);
            } else {
                if i != pos && j != pos {
                    assert(ts[back(i)].tranche < ts[back(j)].tranche);
                } else if i == pos {
                    assert(ts[pos].tranche <= ts[back(j)].tranche);
                }
            }
        }
    }
    assert(assigned_once(new)) by {
        assert forall|i: int, k: int, j: int, l: int, v: int| #[trigger]
            has_assignment(new, i, k, v) && #[trigger] has_assignment(new, j, l, v) implies i == j
            && k == l by {
            if v != validator {
                assert(has_assignment(ts, back(i), k, v));
                assert(has_assignment(ts, back(j), l, v));
            }
        }
    }
    assert(marks_assigned(new, bits)) by {
        assert forall|v: int| 0 <= v < bits.len() && #[trigger] bits[v] implies assigned(
            new,
            v,
        ) by {
            if v != validator {
                assert(entry.assignments[v]);
                let (a, b) = choose|a: int, b: int| #[trigger] has_assignment(ts, a, b, v);
                assert(has_assignment(new, forth(a), b, v));
            }
        }
    }
}

/// In a well-formed approval entry the tranches are strictly ascending, and
/// no validator appears at two places, in one tranche entry or in two.
pub proof fn lemma_tranches_ascending_and_disjoint(entry: ApprovalView)
    requires
        entry.well_formed(),
    ensures
        forall|i: int, j: int|
            0 <= i < j < entry.tranches.len() ==> entry.tranches[i].tranche
                < entry.tranches[j].tranche,
        forall|i: int, k: int, j: int, l: int|
            0 <= i < entry.tranches.len() && 0 <= k < entry.tranches[i].assignments.len() && 0 <= j
                < entry.tranches.len() && 0 <= l < entry.tranches[j].assignments.len() && (i != j
                || k != l) ==> (#[trigger] entry.tranches[i].assignments[k]).0 != (
            #[trigger] entry.tranches[j].assignments[l]).0,
{
    let ts = entry.tranches;
    assert forall|i: int, k: int, j: int, l: int|
        0 <= i < ts.len() && 0 <= k < ts[i].assignments.len() && 0 <= j < ts.len() && 0 <= l
            < ts[j].assignments.len() && (i != j || k != l) implies (
    #[trigger] ts[i].assignments[k]).0 != (#[trigger] ts[j].assignments[l]).0 by {
        let v = ts[i].assignments[k].0 as int;
        if ts[j].assignments[l].0 == v {
            assert(has_assignment(ts, i, k, v) && has_assignment(ts, j, l, v));
        }
    }
}

/// Every validator that `ts` assigns is one of the first `n`.
pub open spec fn in_range(ts: Seq<TrancheView>, n: int) -> bool {
    forall|i: int, k: int, v: int| #[trigger] has_assignment(ts, i, k, v) ==> v < n
}

/// Tranche entries that an approval entry for `n` validators can hold: in
/// strictly ascending order, no validator assigned twice, all in range.
pub open spec fn admissible(ts: Seq<TrancheView>, n: int) -> bool {
    ascending(ts) && assigned_once(ts) && in_range(ts, n)
}

/// The assignments at the positions before the `k`-th assignment of the
/// `i`-th tranche entry are of validators in range, each a different one.
pub open spec fn admissible_before(ts: Seq<TrancheView>, i: int, k: int, n: int) -> bool {
    &&& forall|a: int, b: int, v: int| #[trigger]
        has_assignment(ts, a, b, v) && precedes(a, b, i, k) ==> v < n
    &&& forall|a: int, b: int, c: int, d: int, v: int|
        #[trigger] has_assignment(ts, a, b, v) && #[trigger] has_assignment(ts, c, d, v)
            && precedes(a, b, i, k) && precedes(c, d, i, k) ==> a == c && b == d
}

/// An assignment of a validator in range that no position before it has
/// keeps the positions up to it admissible.
proof fn lemma_admissible_next(ts: Seq<TrancheView>, i: int, k: int, n: int, bits: Seq<bool>)
    requires
        0 <= i < ts.len(),
        0 <= k < ts[i].assignments.len(),
        ts[i].assignments[k].0 < n,
        n == bits.len(),
        marks_before(ts, i, k, bits),
        !bits[ts[i].assignments[k].0 as int],
        admissible_before(ts, i, k, n),
    ensures
        admissible_before(ts, i, k + 1, n),
{
    assert forall|a: int, b: int, c: int, d: int, v: int|
        #[trigger] has_assignment(ts, a, b, v) && #[trigger] has_assignment(ts, c, d, v)
            && precedes(a, b, i, k + 1) && precedes(c, d, i, k + 1) implies a == c && b == d by {
        if a == i && b == k && !(c == i && d == k) {
            assert(has_assignment(ts, c, d, v) && precedes(c, d, i, k));
            assert(marked_before(ts, i, k, v));
            assert(bits[v]);
        }
        if c == i && d == k && !(a == i && b == k) {
            assert(has_assignment(ts, a, b, v) && precedes(a, b, i, k));
            assert(marked_before(ts, i, k, v));
            assert(bits[v]);
        }
    }
}

/// The mathematical content of an [`ApprovalEntry`].
pub struct ApprovalView {
    pub tranches: Seq<TrancheView>,
    pub assignments: Seq<bool>,
    pub backing_group: GroupIndex,
    pub approved: bool,
}

impl ApprovalView {
    /// The invariant of an approval entry: tranches in strictly ascending
    /// order, no validator assigned twice, and the assignment bitfield marking
    /// exactly the assigned validators.
    pub open spec fn well_formed(self) -> bool {
        &&& ascending(self.tranches)
        &&& assigned_once(self.tranches)
        &&& marks_assigned(self.tranches, self.assignments)
    }

    /// The assignment bitfield restricted to the validators assigned at
    /// tranches up to and including `tranche`.
    pub open spec fn mask_up_to(self, tranche: int) -> Seq<bool> {
        Seq::new(self.assignments.len(), |v: int| assigned_up_to(self.tranches, tranche, v))
    }
}

/// What is known of one candidate under one block: the assignments by tranche,
/// the bitfield of assigned validators, the backing group, and whether the
/// candidate has been found approved.
#[derive(Clone)]
pub struct ApprovalEntry {
    tranches: Vec<TrancheEntry>,
    assignments: Bitfield,
    backing_group: GroupIndex,
    approved: bool,
}

impl View for ApprovalEntry {
    type V = ApprovalView;

    closed spec fn view(&self) -> ApprovalView {
        ApprovalView {
            tranches: tranche_views(self.tranches@),
            assignments: self.assignments@,
            backing_group: self.backing_group,
            approved: self.approved,
        }
    }
}

impl ApprovalEntry {
    /// Whether the entry's invariant holds.
    pub open spec fn wf(&self) -> bool {
        self@.well_formed()
    }

    /// An entry for a session of `n_validators` validators, with no assignment
    /// yet and not approved.
    pub fn new(n_validators: usize, backing_group: GroupIndex) -> (r: Self)
        requires
            n_validators <= crate::bitfield::max_bits(),
        ensures
            r.wf(),
            r@.tranches == Seq::<TrancheView>::empty(),
            r@.assignments == Seq::new(n_validators as nat, |i: int| false),
            r@.backing_group == backing_group,
            !r@.approved,
    {
        let r = ApprovalEntry {
            tranches: Vec::new(),
            assignments: Bitfield::new(n_validators),
            backing_group,
            approved: false,
        };
        assert(r@.tranches =~= Seq::<TrancheView>::empty());
        r
    }

    /// An entry for a session of `n_validators` validators with the tranche
    /// entries given, as they come from storage, or `None` where these are
    /// not admissible. The assignment bitfield marks the validators that the
    /// tranche entries assign.
    pub fn from_tranches(
        n_validators: usize,
        tranches: Vec<TrancheEntry>,
        backing_group: GroupIndex,
        approved: bool,
    ) -> (r: Option<Self>)
        requires
            n_validators <= crate::bitfield::max_bits(),
        ensures
            r is Some <==> admissible(tranche_views(tranches@), n_validators as int),
            r matches Some(entry) ==> entry.wf() && entry@ == (ApprovalView {
                tranches: tranche_views(tranches@),
                assignments: Seq::new(
                    n_validators as nat,
                    |v: int| assigned(tranche_views(tranches@), v),
                ),
                backing_group,
                approved,
            }),
    {
        let n = n_validators;
        let ghost ts = tranche_views(tranches@);
        let mut mask = Bitfield::new(n);
        let mut i: usize = 0;
        while i < tranches.len()
            invariant
                ts == tranche_views(tranches@),
                0 <= i <= tranches.len(),
                mask@.len() == n,
                n == n_validators,
                forall|a: int, b: int| 0 <= a < b < i ==> ts[a].tranche < ts[b].tranche,
                marks_before(ts, i as int, 0, mask@),
                admissible_before(ts, i as int, 0, n as int),
            decreases tranches.len() - i,
        {
            assert(ts[i as int] == tranches@[i as int]@);
            if i > 0 {
                assert(ts[i as int - 1] == tranches@[i as int - 1]@);
                if tranches[i - 1].tranche >= tranches[i].tranche {
                    return None;
                }
            }
            let entry = &tranches[i];
            let mut k: usize = 0;
            while k < entry.assignments.len()
                invariant
                    ts == tranche_views(tranches@),
                    0 <= i < tranches.len(),
                    entry@ == ts[i as int],
                    0 <= k <= entry.assignments.len(),
                    mask@.len() == n,
                    n == n_validators,
                    marks_before(ts, i as int, k as int, mask@),
                    admissible_before(ts, i as int, k as int, n as int),
                decreases entry.assignments.len() - k,
            {
                let validator = entry.assignments[k].0;
                assert(has_assignment(ts, i as int, k as int, validator as int));
                if validator as usize >= n {
                    return None;
                }
                if mask.is_set(validator as usize) {
                    proof {
                        assert(marked_before(ts, i as int, k as int, validator as int));
                        let (a, b) = choose|a: int, b: int| #[trigger]
                            has_assignment(ts, a, b, validator as int) && precedes(
                                a,
                                b,
                                i as int,
                                k as int,
                            );
                        assert(has_assignment(ts, a, b, validator as int));
                    }
                    return None;
                }
                let ghost before = mask@;
                mask.set(validator as usize, true);
                proof {
                    lemma_marks_next(ts, i as int, k as int, before, mask@);
                    lemma_admissible_next(ts, i as int, k as int, n as int, before);
                }
                k = k + 1;
            }
            proof {
                lemma_marks_entry_done(ts, i as int, mask@);
            }
            i = i + 1;
        }
        proof {
            assert forall|a: int, b: int, v: int| #[trigger]
                has_assignment(ts, a, b, v) implies precedes(a, b, i as int, 0) by {}
            let want = Seq::new(n as nat, |v: int| assigned(ts, v));
            assert forall|v: int| 0 <= v < n implies mask@[v] == want[v] by {
                if marked_before(ts, i as int, 0, v) {
                    let (a, b) = choose|a: int, b: int| #[trigger]
                        has_assignment(ts, a, b, v) && precedes(a, b, i as int, 0);
                    assert(has_assignment(ts, a, b, v));
                }
                if assigned(ts, v) {
                    let (a, b) = choose|a: int, b: int| #[trigger] has_assignment(ts, a, b, v);
                    assert(has_assignment(ts, a, b, v) && precedes(a, b, i as int, 0));
                }
            }
            assert(mask@ =~= want);
        }
        Some(ApprovalEntry { tranches, assignments: mask, backing_group, approved })
    }

    /// An entry with the tranche entries and the assignment bitfield given,
    /// as they come from storage, or `None` where the two do not make a
    /// well-formed entry: where the tranche entries are not admissible, or
    /// the bitfield does not mark exactly the validators that they assign.
    pub fn from_parts(
        tranches: Vec<TrancheEntry>,
        assignments: Bitfield,
        backing_group: GroupIndex,
        approved: bool,
    ) -> (r: Option<Self>)
        ensures
            r is Some <==> (ApprovalView {
                tranches: tranche_views(tranches@),
                assignments: assignments@,
                backing_group,
                approved,
            }).well_formed(),
            r matches Some(entry) ==> entry.wf() && entry@ == (ApprovalView {
                tranches: tranche_views(tranches@),
                assignments: assignments@,
                backing_group,
                approved,
            }),
    {
        let ghost ts = tranche_views(tranches@);
        let ghost given = ApprovalView {
            tranches: ts,
            assignments: assignments@,
            backing_group,
            approved,
        };
        let n = assignments.len();
        match ApprovalEntry::from_tranches(n, tranches, backing_group, approved) {
            Some(entry) => {
                if entry.assignments.same_bits(&assignments) {
                    Some(entry)
                } else {
                    proof {
                        if given.well_formed() {
                            assert forall|v: int| 0 <= v < n implies assignments@[v] == assigned(
                                ts,
                                v,
                            ) by {
                                if assigned(ts, v) {
                                    let (a, b) = choose|a: int, b: int| #[trigger]
                                        has_assignment(ts, a, b, v);
                                    assert(has_assignment(ts, a, b, v));
                                }
                            }
                            assert(assignments@ =~= entry@.assignments);
                        }
                    }
                    None
                }
            },
            None => {
                proof {
                    if given.well_formed() {
                        assert(in_range(ts, n as int));
                    }
                }
                None
            },
        }
    }

    /// The bitfield of the validators that have an assignment on record.
    pub fn assignments(&self) -> (r: &Bitfield)
        ensures
            r@ == self@.assignments,
    {
        &self.assignments
    }

    /// The tranche entries, in ascending order of tranche.
    pub fn tranches(&self) -> (r: &[TrancheEntry])
        ensures
            tranche_views(r@) == self@.tranches,
    {
        self.tranches.as_slice()
    }

    /// The number of validators of the session.
    pub fn n_validators(&self) -> (r: usize)
        ensures
            r == self@.assignments.len(),
            r <= crate::bitfield::max_bits(),
    {
        self.assignments.len()
    }

    /// Whether the validator has an assignment on record.
    pub fn is_assigned(&self, validator: ValidatorIndex) -> (r: bool)
        ensures
            r == (validator < self@.assignments.len() && self@.assignments[validator as int]),
    {
        self.assignments.is_set(validator as usize)
    }

    /// The assignment bitfield restricted to the validators assigned at
    /// tranches up to and including `tranche`.
    pub fn assignments_up_to(&self, tranche: DelayTranche) -> (r: Bitfield)
        requires
            self.wf(),
        ensures
            r@ == self@.mask_up_to(tranche as int),
    {
        let n = self.assignments.len();
        let mut mask = Bitfield::new(n);
        let ghost ts = self@.tranches;
        let mut i: usize = 0;
        while i < self.tranches.len() && self.tranches[i].tranche <= tranche
            invariant
                self.wf(),
                ts == self@.tranches,
                n == self@.assignments.len(),
                0 <= i <= self.tranches.len(),
                mask@.len() == n,
                forall|j: int| 0 <= j < i ==> ts[j].tranche <= tranche,
                marks_before(ts, i as int, 0, mask@),
            decreases self.tranches.len() - i,
        {
            let entry = &self.tranches[i];
            assert(entry@ == ts[i as int]);
            let mut k: usize = 0;
            while k < entry.assignments.len()
                invariant
                    self.wf(),
                    ts == self@.tranches,
                    n == self@.assignments.len(),
                    0 <= i < ts.len(),
                    entry@ == ts[i as int],
                    0 <= k <= entry.assignments.len(),
                    mask@.len() == n,
                    marks_before(ts, i as int, k as int, mask@),
                decreases entry.assignments.len() - k,
            {
                let validator = entry.assignments[k].0;
                assert(has_assignment(ts, i as int, k as int, validator as int));
                let ghost before = mask@;
                mask.set(validator as usize, true);
                proof {
                    lemma_marks_next(ts, i as int, k as int, before, mask@);
                }
                k = k + 1;
            }
            proof {
                lemma_marks_entry_done(ts, i as int, mask@);
            }
            i = i + 1;
        }
        proof {
            let want = self@.mask_up_to(tranche as int);
            assert forall|v: int| 0 <= v < n implies mask@[v] == want[v] by {
                if marked_before(ts, i as int, 0, v) {
                    let (a, b) = choose|a: int, b: int| #[trigger]
                        has_assignment(ts, a, b, v) && precedes(a, b, i as int, 0);
                    assert(has_assignment(ts, a, b, v) && ts[a].tranche <= tranche);
                }
                if assigned_up_to(ts, tranche as int, v) {
                    let (a, b) = choose|a: int, b: int| #[trigger]
                        has_assignment(ts, a, b, v) && ts[a].tranche <= tranche;
                    if a >= i {
                        assert(ts[i as int].tranche > tranche);
                    }
                    assert(has_assignment(ts, a, b, v) && precedes(a, b, i as int, 0));
                }
            }
            assert(mask@ =~= want);
        }
        mask
    }

    /// Records the assignment of `validator` at `tranche`, observed at
    /// `tick_now`: the assignment goes to the end of the entry of its tranche,
    /// which is created in its place in the order where it is not there, and
    /// the validator's assignment bit is set.
    ///
    /// The validator must be one of the session's and must have no assignment
    /// on record, as [`ApprovalEntry::is_assigned`] tells.
    pub fn import_assignment(
        &mut self,
        tranche: DelayTranche,
        validator: ValidatorIndex,
        tick_now: Tick,
    )
        requires
            old(self).wf(),
            validator < old(self)@.assignments.len(),
            !old(self)@.assignments[validator as int],
        ensures
            final(self).wf(),
            final(self)@ == (ApprovalView {
                tranches: imported(old(self)@.tranches, tranche, validator, tick_now),
                assignments: old(self)@.assignments.update(validator as int, true),
                ..old(self)@
            }),
    {
        let ghost ts = self@.tranches;
        let mut idx: usize = 0;
        while idx < self.tranches.len() && self.tranches[idx].tranche < tranche
            invariant
                0 <= idx <= self.tranches.len(),
                *self == *old(self),
                ts == self@.tranches,
                position_from(ts, 0, tranche as int) == position_from(
                    ts,
                    idx as int,
                    tranche as int,
                ),
            decreases self.tranches.len() - idx,
        {
            assert(ts[idx as int] == self.tranches[idx as int]@);
            idx = idx + 1;
        }
        proof {
            if idx < self.tranches.len() {
                assert(ts[idx as int] == self.tranches[idx as int]@);
            }
            lemma_import_well_formed(self@, tranche, validator, tick_now);
        }
        if idx == self.tranches.len() || self.tranches[idx].tranche > tranche {
            self.tranches.insert(idx, TrancheEntry { tranche, assignments: Vec::new() });
        }
        self.tranches[idx].assignments.push((validator, tick_now));
        self.assignments.set(validator as usize, true);
        proof {
            assert(self@.tranches =~= imported(ts, tranche, validator, tick_now));
        }
    }

    /// The backing group of the candidate.
    pub fn backing_group(&self) -> (r: GroupIndex)
        ensures
            r == self@.backing_group,
    {
        self.backing_group
    }

    /// Whether the candidate has been found approved under this block.
    pub fn is_approved(&self) -> (r: bool)
        ensures
            r == self@.approved,
    {
        self.approved
    }

    /// Records that the candidate is approved. The flag is never cleared.
    pub fn mark_approved(&mut self)
        ensures
            final(self)@ == (ApprovalView { approved: true, ..old(self)@ }),
    {
        self.approved = true;
    }
}

/// The hash of a block.
pub type BlockHash = [u8; 32];

/// Whether one of the blocks has the hash `hash`.
pub open spec fn has_block(blocks: Seq<(BlockHash, ApprovalView)>, hash: BlockHash) -> bool {
    exists|i: int| 0 <= i < blocks.len() && (#[trigger] blocks[i]).0 == hash
}

/// The place of the block with the hash `hash` among the blocks, where it
/// is one of them.
pub open spec fn block_index(blocks: Seq<(BlockHash, ApprovalView)>, hash: BlockHash) -> int {
    choose|i: int| 0 <= i < blocks.len() && (#[trigger] blocks[i]).0 == hash
}

/// The mathematical content of a [`CandidateEntry`].
pub struct CandidateView {
    pub session: SessionIndex,
    pub approvals: Seq<bool>,
    /// The blocks that include the candidate, each with the approval entry of
    /// the candidate under it, in the order in which they were added.
    pub block_assignments: Seq<(BlockHash, ApprovalView)>,
}

impl CandidateView {
    /// The invariant of a candidate entry: no block occurs twice, and every
    /// approval entry is well formed and for as many validators as the
    /// approval bitfield has bits.
    pub open spec fn well_formed(self) -> bool {
        &&& forall|i: int, j: int|
            0 <= i < self.block_assignments.len() && 0 <= j < self.block_assignments.len() && (
            #[trigger] self.block_assignments[i]).0 == (#[trigger] self.block_assignments[j]).0
                ==> i == j
        &&& forall|i: int|
            0 <= i < self.block_assignments.len() ==> (
            #[trigger] self.block_assignments[i]).1.well_formed()
                && self.block_assignments[i].1.assignments.len() == self.approvals.len()
    }
}

/// What is known of one candidate whatever block includes it: its session,
/// the validators that have approved it, and its approval entry under each
/// block that includes it.
#[derive(Clone)]
pub struct CandidateEntry {
    session: SessionIndex,
    approvals: Bitfield,
    block_assignments: Vec<(BlockHash, ApprovalEntry)>,
}

impl View for CandidateEntry {
    type V = CandidateView;

    closed spec fn view(&self) -> CandidateView {
        CandidateView {
            session: self.session,
            approvals: self.approvals@,
            block_assignments: Seq::new(
                self.block_assignments@.len(),
                |i: int| (self.block_assignments@[i].0, self.block_assignments@[i].1@),
            ),
        }
    }
}

/// Whether two hashes are equal.
fn same_hash(a: &BlockHash, b: &BlockHash) -> (r: bool)
    ensures
        r == (*a == *b),
{
    let mut i: usize = 0;
    while i < 32
        invariant
            0 <= i <= 32,
            forall|j: int| 0 <= j < i ==> a@[j] == b@[j],
        decreases 32 - i,
    {
        if a[i] != b[i] {
            return false;
        }
        i = i + 1;
    }
    assert(*a =~= *b);
    true
}

impl CandidateEntry {
    /// Whether the entry's invariant holds.
    pub open spec fn wf(&self) -> bool {
        self@.well_formed()
    }

    /// An entry for a candidate of `session` with the approval votes given,
    /// not yet included in any block.
    pub fn new(session: SessionIndex, approvals: Bitfield) -> (r: Self)
        ensures
            r.wf(),
            r@ == (CandidateView {
                session,
                approvals: approvals@,
                block_assignments: Seq::empty(),
            }),
    {
        let r = CandidateEntry { session, approvals, block_assignments: Vec::new() };
        assert(r@.block_assignments =~= Seq::empty());
        r
    }

    /// The session of the candidate.
    pub fn session(&self) -> (r: SessionIndex)
        ensures
            r == self@.session,
    {
        self.session
    }

    /// The approval bitfield: bit `i` is set when validator `i` has approved.
    pub fn approvals(&self) -> (r: &Bitfield)
        ensures
            r@ == self@.approvals,
    {
        &self.approvals
    }

    /// Records the approval vote of `validator` and returns whether it was on
    /// record already. Marking twice changes nothing.
    pub fn mark_approval(&mut self, validator: ValidatorIndex) -> (r: bool)
        requires
            validator < old(self)@.approvals.len(),
        ensures
            r == old(self)@.approvals[validator as int],
            final(self)@ == (CandidateView {
                approvals: old(self)@.approvals.update(validator as int, true),
                ..old(self)@
            }),
            old(self).wf() ==> final(self).wf(),
    {
        let prev = self.approvals.is_set(validator as usize);
        self.approvals.set(validator as usize, true);
        assert(self@.block_assignments =~= old(self)@.block_assignments);
        prev
    }

    /// The place of the block among those that include the candidate.
    fn find_block(&self, block_hash: &BlockHash) -> (r: Option<usize>)
        ensures
            match r {
                Some(i) => i < self@.block_assignments.len() && self@.block_assignments[i as int].0
                    == *block_hash,
                None => !has_block(self@.block_assignments, *block_hash),
            },
    {
        let mut i: usize = 0;
        while i < self.block_assignments.len()
            invariant
                0 <= i <= self.block_assignments@.len(),
                self.block_assignments@.len() == self@.block_assignments.len(),
                forall|j: int|
                    0 <= j < i ==> (#[trigger] self@.block_assignments[j]).0 != *block_hash,
            decreases self.block_assignments.len() - i,
        {
            if same_hash(&self.block_assignments[i].0, block_hash) {
                return Some(i);
            }
            i = i + 1;
        }
        None
    }

    /// The approval entry of the candidate under the block, if the block
    /// includes the candidate.
    pub fn approval_entry(&self, block_hash: &BlockHash) -> (r: Option<&ApprovalEntry>)
        requires
            self.wf(),
        ensures
            match r {
                Some(entry) => {
                    &&& has_block(self@.block_assignments, *block_hash)
                    &&& entry@ == self@.block_assignments[block_index(
                        self@.block_assignments,
                        *block_hash,
                    )].1
                    &&& entry.wf()
                    &&& entry@.assignments.len() == self@.approvals.len()
                },
                None => !has_block(self@.block_assignments, *block_hash),
            },
    {
        match self.find_block(block_hash) {
            Some(i) => {
                let entry = &self.block_assignments[i].1;
                assert(self@.block_assignments[i as int] == (*block_hash, entry@));
                Some(entry)
            },
            None => None,
        }
    }

    /// Records the assignment of `validator` at `tranche` for the candidate
    /// under the block, observed at `tick_now`, and returns whether it did
    /// so: it does not where the block does not include the candidate, where
    /// the session has no such validator, or where the validator has an
    /// assignment under the block already.
    pub fn import_assignment(
        &mut self,
        block_hash: &BlockHash,
        tranche: DelayTranche,
        validator: ValidatorIndex,
        tick_now: Tick,
    ) -> (r: bool)
        requires
            old(self).wf(),
        ensures
            final(self).wf(),
            r == (has_block(old(self)@.block_assignments, *block_hash) && validator < old(
                self,
            )@.approvals.len() && !old(self)@.block_assignments[block_index(
                old(self)@.block_assignments,
                *block_hash,
            )].1.assignments[validator as int]),
            final(self)@ == if r {
                let at = block_index(old(self)@.block_assignments, *block_hash);
                let entry = old(self)@.block_assignments[at].1;
                CandidateView {
                    block_assignments: old(self)@.block_assignments.update(
                        at,
                        (
                            *block_hash,
                            ApprovalView {
                                tranches: imported(entry.tranches, tranche, validator, tick_now),
                                assignments: entry.assignments.update(validator as int, true),
                                ..entry
                            },
                        ),
                    ),
                    ..old(self)@
                }
            } else {
                old(self)@
            },
    {
        match self.find_block(block_hash) {
            Some(i) => {
                let ghost before = self@.block_assignments;
                assert(before[i as int].1 == self.block_assignments@[i as int].1@);
                if self.block_assignments[i].1.is_assigned(validator) || validator as usize
                    >= self.block_assignments[i].1.n_validators() {
                    return false;
                }
                self.block_assignments[i].1.import_assignment(tranche, validator, tick_now);
                proof {
                    let after = self@.block_assignments;
                    let entry = before[i as int].1;
                    assert(after =~= before.update(
                        i as int,
                        (
                            *block_hash,
                            ApprovalView {
                                tranches: imported(entry.tranches, tranche, validator, tick_now),
                                assignments: entry.assignments.update(validator as int, true),
                                ..entry
                            },
                        ),
                    ));
                }
                true
            },
            None => false,
        }
    }

    /// Records that the candidate is approved under the block, and returns
    /// whether the block includes the candidate.
    pub fn mark_approved(&mut self, block_hash: &BlockHash) -> (r: bool)
        requires
            old(self).wf(),
        ensures
            final(self).wf(),
            r == has_block(old(self)@.block_assignments, *block_hash),
            final(self)@ == if r {
                let at = block_index(old(self)@.block_assignments, *block_hash);
                let entry = old(self)@.block_assignments[at].1;
                CandidateView {
                    block_assignments: old(self)@.block_assignments.update(
                        at,
                        (*block_hash, ApprovalView { approved: true, ..entry }),
                    ),
                    ..old(self)@
                }
            } else {
                old(self)@
            },
    {
        match self.find_block(block_hash) {
            Some(i) => {
                let ghost before = self@.block_assignments;
                assert(before[i as int].1 == self.block_assignments@[i as int].1@);
                self.block_assignments[i].1.mark_approved();
                proof {
                    let after = self@.block_assignments;
                    let entry = before[i as int].1;
                    assert(after =~= before.update(
                        i as int,
                        (*block_hash, ApprovalView { approved: true, ..entry }),
                    ));
                }
                true
            },
            None => false,
        }
    }

    /// Records that the block includes the candidate, with the approval entry
    /// given, and returns whether it did so: it does not where the block is
    /// on record already, or where the entry is for another number of
    /// validators than the approval bitfield.
    pub fn add_block(&mut self, block_hash: BlockHash, entry: ApprovalEntry) -> (r: bool)
        requires
            old(self).wf(),
            entry.wf(),
        ensures
            final(self).wf(),
            r == (!has_block(old(self)@.block_assignments, block_hash) && entry@.assignments.len()
                == old(self)@.approvals.len()),
            final(self)@ == if r {
                CandidateView {
                    block_assignments: old(self)@.block_assignments.push((block_hash, entry@)),
                    ..old(self)@
                }
            } else {
                old(self)@
            },
    {
        if entry.n_validators() != self.approvals.len() {
            return false;
        }
        match self.find_block(&block_hash) {
            Some(_) => false,
            None => {
                let ghost before = self@.block_assignments;
                let ghost view = entry@;
                self.block_assignments.push((block_hash, entry));
                proof {
                    let after = self@.block_assignments;
                    assert(after =~= before.push((block_hash, view)));
                }
                true
            },
        }
    }

    /// Forgets that the block includes the candidate, as when the block is
    /// finalized or discarded, and returns the approval entry under it, if
    /// the block was on record.
    pub fn remove_block(&mut self, block_hash: &BlockHash) -> (r: Option<ApprovalEntry>)
        requires
            old(self).wf(),
        ensures
            final(self).wf(),
            match r {
                Some(entry) => {
                    let at = block_index(old(self)@.block_assignments, *block_hash);
                    &&& has_block(old(self)@.block_assignments, *block_hash)
                    &&& entry@ == old(self)@.block_assignments[at].1
                    &&& entry.wf()
                    &&& final(self)@ == (CandidateView {
                        block_assignments: old(self)@.block_assignments.remove(at),
                        ..old(self)@
                    })
                },
                None => !has_block(old(self)@.block_assignments, *block_hash) && final(self)@
                    == old(self)@,
            },
    {
        match self.find_block(block_hash) {
            Some(i) => {
                let ghost before = self@.block_assignments;
                let pair = self.block_assignments.remove(i);
                proof {
                    let after = self@.block_assignments;
                    assert(after =~= before.remove(i as int));
                    assert(before[i as int] == (*block_hash, pair.1@));
                }
                Some(pair.1)
            },
            None => None,
        }
    }
}

} // verus!
