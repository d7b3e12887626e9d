use approval_voting::approval_checking::{check_approval, tranches_to_approve, RequiredTranches};
use approval_voting::bitfield::Bitfield;
use approval_voting::persisted_entries::{
    ApprovalEntry, CandidateEntry, DelayTranche, TrancheEntry,
};

fn bitfield_of(len: usize, set: &[usize]) -> Bitfield {
    let mut bits = Bitfield::new(len);
    for &i in set {
        bits.set(i, true);
    }
    bits
}

fn all_set(len: usize) -> Bitfield {
    let mut bits = Bitfield::new(len);
    for i in 0..len {
        bits.set(i, true);
    }
    bits
}

#[test]
fn pending_is_not_approved() {
    let candidate = CandidateEntry::new(0, Bitfield::new(0));
    let approval_entry = ApprovalEntry::new(0, 0);

    assert!(!check_approval(&candidate, &approval_entry, RequiredTranches::Pending(0)));
}

#[test]
fn all_requires_supermajority() {
    let mut candidate = CandidateEntry::new(0, Bitfield::new(10));

    for i in 0..6 {
        candidate.mark_approval(i);
    }

    let approval_entry = ApprovalEntry::new(10, 0);

    assert!(!check_approval(&candidate, &approval_entry, RequiredTranches::All));

    candidate.mark_approval(6);
    assert!(check_approval(&candidate, &approval_entry, RequiredTranches::All));
}

#[test]
fn exact_takes_only_assignments_up_to() {
    let mut candidate = CandidateEntry::new(0, Bitfield::new(10));

    for i in 0..6 {
        candidate.mark_approval(i);
    }

    let approval_entry = ApprovalEntry::from_tranches(
        10,
        vec![
            TrancheEntry::new(0, (0..4).map(|i| (i, 0)).collect()),
            TrancheEntry::new(1, (4..6).map(|i| (i, 1)).collect()),
            TrancheEntry::new(2, (6..10).map(|i| (i, 0)).collect()),
        ],
        0,
        false,
    )
    .unwrap();
    assert_eq!(approval_entry.assignments().count_ones(), 10);

    assert!(check_approval(&candidate, &approval_entry, RequiredTranches::Exact(1, 0)));
    assert!(!check_approval(&candidate, &approval_entry, RequiredTranches::Exact(2, 0)));
    assert!(check_approval(&candidate, &approval_entry, RequiredTranches::Exact(2, 4)));
}

#[test]
fn tranches_to_approve_everyone_present() {
    let block_tick = 0;
    let no_show_duration = 10;
    let needed_approvals = 4;

    let mut approval_entry = ApprovalEntry::new(4, 0);

    approval_entry.import_assignment(0, 0, block_tick);
    approval_entry.import_assignment(0, 1, block_tick);

    approval_entry.import_assignment(1, 2, block_tick + 1);
    approval_entry.import_assignment(1, 3, block_tick + 1);

    let approvals = all_set(4);

    assert_eq!(
        tranches_to_approve(
            &approval_entry,
            &approvals,
            2,
            block_tick,
            no_show_duration,
            needed_approvals,
        ),
        RequiredTranches::Exact(1, 0),
    );
}

#[test]
fn tranches_to_approve_no_shows_before_initial_count() {
    let block_tick = 20;
    let no_show_duration = 10;
    let needed_approvals = 4;

    let mut approval_entry = ApprovalEntry::new(4, 0);

    approval_entry.import_assignment(0, 0, block_tick);
    approval_entry.import_assignment(0, 1, block_tick);

    approval_entry.import_assignment(1, 2, block_tick);

    let mut approvals = Bitfield::new(4);
    approvals.set(0, true);
    approvals.set(1, true);

    let tranche_now = no_show_duration as DelayTranche + 1;
    assert_eq!(
        tranches_to_approve(
            &approval_entry,
            &approvals,
            tranche_now,
            block_tick,
            no_show_duration,
            needed_approvals,
        ),
        RequiredTranches::Pending(tranche_now),
    );
}

#[test]
fn tranches_to_approve_not_enough_initial() {
    let block_tick = 0;
    let no_show_duration = 10;
    let needed_approvals = 4;

    let mut approval_entry = ApprovalEntry::new(4, 0);

    approval_entry.import_assignment(0, 0, block_tick);
    approval_entry.import_assignment(0, 1, block_tick);

    approval_entry.import_assignment(1, 3, block_tick + 1);

    let approvals = all_set(4);

    assert_eq!(
        tranches_to_approve(
            &approval_entry,
            &approvals,
            8,
            block_tick,
            no_show_duration,
            needed_approvals,
        ),
        RequiredTranches::Pending(8), // tranche_now
    );
}

#[test]
fn tranches_to_approve_cover_no_show_not_enough() {
    let block_tick = 20;
    let no_show_duration = 10;
    let needed_approvals = 4;
    let n_validators = 8;

    let mut approval_entry = ApprovalEntry::new(n_validators, 0);

    approval_entry.import_assignment(0, 0, block_tick);
    approval_entry.import_assignment(0, 1, block_tick);

    approval_entry.import_assignment(1, 2, block_tick);
    approval_entry.import_assignment(1, 3, block_tick);

    let mut approvals = Bitfield::new(n_validators);
    approvals.set(0, true);
    approvals.set(1, true);
    // skip 2
    approvals.set(3, true);

    let tranche_now = no_show_duration as DelayTranche + 1;
    assert_eq!(
        tranches_to_approve(
            &approval_entry,
            &approvals,
            tranche_now,
            block_tick,
            no_show_duration,
            needed_approvals,
        ),
        RequiredTranches::Pending(2), // tranche 1 + 1 no-show.
    );

    approvals.set(0, false);

    assert_eq!(
        tranches_to_approve(
            &approval_entry,
            &approvals,
            tranche_now,
            block_tick,
            no_show_duration,
            needed_approvals,
        ),
        RequiredTranches::Pending(3), // tranche 1 + 2 no-show.
    );
}

#[test]
fn tranches_to_approve_multi_cover_not_enough() {
    let block_tick = 20;
    let no_show_duration = 10;
    let needed_approvals = 4;
    let n_validators = 8;

    let mut approval_entry = ApprovalEntry::new(n_validators, 0);

    approval_entry.import_assignment(0, 0, block_tick);
    approval_entry.import_assignment(0, 1, block_tick);

    approval_entry.import_assignment(1, 2, block_tick);
    approval_entry.import_assignment(1, 3, block_tick);

    approval_entry.import_assignment(2, 4, block_tick);
    approval_entry.import_assignment(2, 5, block_tick);

    let mut approvals = Bitfield::new(n_validators);
    approvals.set(0, true);
    approvals.set(1, true);
    // skip 2
    approvals.set(3, true);
    // skip 4
    approvals.set(5, true);

    let tranche_now = no_show_duration as DelayTranche + 1;
    assert_eq!(
        tranches_to_approve(
            &approval_entry,
            &approvals,
            tranche_now,
            block_tick,
            no_show_duration,
            needed_approvals,
        ),
        RequiredTranches::Pending(3), // tranche 2 + 1 uncovered no-show
    );
}

#[test]
fn tranches_to_approve_cover_no_show() {
    let block_tick = 20;
    let no_show_duration = 10;
    let needed_approvals = 4;
    let n_validators = 8;

    let mut approval_entry = ApprovalEntry::new(n_validators, 0);

    approval_entry.import_assignment(0, 0, block_tick);
    approval_entry.import_assignment(0, 1, block_tick);

    approval_entry.import_assignment(1, 2, block_tick);
    approval_entry.import_assignment(1, 3, block_tick);

    approval_entry.import_assignment(2, 4, block_tick);
    approval_entry.import_assignment(2, 5, block_tick);

    let mut approvals = Bitfield::new(n_validators);
    approvals.set(0, true);
    approvals.set(1, true);
    // skip 2
    approvals.set(3, true);
    approvals.set(4, true);
    approvals.set(5, true);

    let tranche_now = no_show_duration as DelayTranche + 1;
    assert_eq!(
        tranches_to_approve(
            &approval_entry,
            &approvals,
            tranche_now,
            block_tick,
            no_show_duration,
            needed_approvals,
        ),
        RequiredTranches::Exact(2, 1),
    );

    // Even though tranche 2 has 2 validators, it only covers 1 no-show.
    // to cover a second no-show, we need to take another non-empty tranche.

    approvals.set(0, false);

    assert_eq!(
        tranches_to_approve(
            &approval_entry,
            &approvals,
            tranche_now,
            block_tick,
            no_show_duration,
            needed_approvals,
        ),
        RequiredTranches::Pending(3),
    );

    approval_entry.import_assignment(3, 6, block_tick);
    approvals.set(6, true);

    assert_eq!(
        tranches_to_approve(
            &approval_entry,
            &approvals,
            tranche_now,
            block_tick,
            no_show_duration,
            needed_approvals,
        ),
        RequiredTranches::Exact(3, 2),
    );
}

#[test]
fn no_tranches_is_pending_at_current_tranche() {
    let approval_entry = ApprovalEntry::new(4, 0);
    let approvals = Bitfield::new(4);
    assert_eq!(
        tranches_to_approve(&approval_entry, &approvals, 7, 3, 10, 2),
        RequiredTranches::Pending(7),
    );
}

#[test]
fn tranches_after_now_are_not_seen() {
    let mut with_later = ApprovalEntry::new(8, 0);
    let mut without = ApprovalEntry::new(8, 0);
    for entry in [&mut with_later, &mut without] {
        entry.import_assignment(0, 0, 0);
        entry.import_assignment(1, 1, 1);
    }
    with_later.import_assignment(5, 2, 5);
    with_later.import_assignment(6, 3, 6);
    let approvals = bitfield_of(8, &[0, 1]);
    let seen = tranches_to_approve(&with_later, &approvals, 4, 0, 10, 2);
    assert_eq!(seen, tranches_to_approve(&without, &approvals, 4, 0, 10, 2));
    assert_eq!(seen, RequiredTranches::Exact(1, 0));

    // Nothing is assigned at or before tranche 0 of an entry that starts later.
    let mut late = ApprovalEntry::new(8, 0);
    late.import_assignment(3, 0, 3);
    assert_eq!(
        tranches_to_approve(&late, &approvals, 2, 0, 10, 1),
        RequiredTranches::Pending(2),
    );
}

#[test]
fn same_inputs_give_same_verdict() {
    let mut approval_entry = ApprovalEntry::new(8, 0);
    approval_entry.import_assignment(0, 0, 20);
    approval_entry.import_assignment(0, 1, 20);
    approval_entry.import_assignment(1, 2, 20);
    approval_entry.import_assignment(1, 3, 20);
    let approvals = bitfield_of(8, &[0, 1, 3]);
    let first = tranches_to_approve(&approval_entry, &approvals, 11, 20, 10, 4);
    let second = tranches_to_approve(&approval_entry, &approvals, 11, 20, 10, 4);
    assert_eq!(first, second);
    assert_eq!(first, RequiredTranches::Pending(2));
}

#[test]
fn none_needed_is_exact_at_first_tranche() {
    let mut approval_entry = ApprovalEntry::new(4, 0);
    approval_entry.import_assignment(2, 1, 2);
    approval_entry.import_assignment(3, 0, 3);
    let approvals = Bitfield::new(4);
    assert_eq!(
        tranches_to_approve(&approval_entry, &approvals, 5, 0, 10, 0),
        RequiredTranches::Exact(2, 0),
    );
}

#[test]
fn all_assigned_and_approved_is_exact_at_last_tranche() {
    let mut approval_entry = ApprovalEntry::new(6, 0);
    for v in 0..6u32 {
        approval_entry.import_assignment(v / 2, v, 100);
    }
    let approvals = all_set(6);
    assert_eq!(
        tranches_to_approve(&approval_entry, &approvals, 200, 0, 10, 6),
        RequiredTranches::Exact(2, 0),
    );
    // With fewer needed the count is reached at an earlier tranche.
    assert_eq!(
        tranches_to_approve(&approval_entry, &approvals, 200, 0, 10, 3),
        RequiredTranches::Exact(1, 0),
    );
}

#[test]
fn no_shows_reaching_the_validators_require_all() {
    let mut approval_entry = ApprovalEntry::new(4, 0);
    for v in 0..4u32 {
        approval_entry.import_assignment(v / 2, v, 0);
    }
    let approvals = Bitfield::new(4);
    assert_eq!(
        tranches_to_approve(&approval_entry, &approvals, 50, 0, 10, 4),
        RequiredTranches::All,
    );
    // The no-shows reach the number of validators at a later tranche only.
    let mut later = ApprovalEntry::new(4, 0);
    later.import_assignment(0, 0, 0);
    later.import_assignment(1, 1, 0);
    assert_eq!(
        tranches_to_approve(&later, &approvals, 50, 0, 10, 1),
        RequiredTranches::Pending(2),
    );
    later.import_assignment(2, 2, 0);
    later.import_assignment(2, 3, 0);
    assert_eq!(tranches_to_approve(&later, &approvals, 50, 0, 10, 1), RequiredTranches::All);
    // Two no-shows among two assignments, of eight validators: pending two
    // tranches further.
    let mut sparse = ApprovalEntry::new(8, 0);
    sparse.import_assignment(0, 0, 0);
    sparse.import_assignment(0, 1, 0);
    let none = Bitfield::new(8);
    assert_eq!(
        tranches_to_approve(&sparse, &none, 50, 0, 10, 2),
        RequiredTranches::Pending(2),
    );
}

#[test]
fn grace_period_ends_at_the_deadline() {
    let mut approval_entry = ApprovalEntry::new(4, 0);
    approval_entry.import_assignment(0, 0, 5);
    let approvals = Bitfield::new(4);
    // tick_now = 14 < 5 + 10: still in time.
    assert_eq!(
        tranches_to_approve(&approval_entry, &approvals, 4, 10, 10, 1),
        RequiredTranches::Exact(0, 0),
    );
    // tick_now = 15 = 5 + 10: a no-show.
    assert_eq!(
        tranches_to_approve(&approval_entry, &approvals, 5, 10, 10, 1),
        RequiredTranches::Pending(1),
    );
    // No overflow where the deadline lies beyond the last tick.
    let mut far = ApprovalEntry::new(4, 0);
    far.import_assignment(0, 0, u64::MAX);
    assert_eq!(
        tranches_to_approve(&far, &approvals, 5, u64::MAX, u64::MAX, 1),
        RequiredTranches::Exact(0, 0),
    );
}

#[test]
fn approval_bit_past_the_end_counts_as_unset() {
    let mut approval_entry = ApprovalEntry::new(4, 0);
    approval_entry.import_assignment(0, 3, 0);
    let short = all_set(2);
    assert_eq!(
        tranches_to_approve(&approval_entry, &short, 20, 0, 10, 1),
        RequiredTranches::Pending(1),
    );
}

#[test]
fn more_approvals_keep_an_approval() {
    let mut approval_entry = ApprovalEntry::new(6, 0);
    for v in 0..4u32 {
        approval_entry.import_assignment(0, v, 0);
    }
    let mut candidate = CandidateEntry::new(1, bitfield_of(6, &[0, 1, 2]));
    assert!(check_approval(&candidate, &approval_entry, RequiredTranches::Exact(0, 1)));
    assert!(!check_approval(&candidate, &approval_entry, RequiredTranches::Exact(0, 0)));
    assert!(!check_approval(&candidate, &approval_entry, RequiredTranches::All));
    candidate.mark_approval(5);
    assert!(check_approval(&candidate, &approval_entry, RequiredTranches::Exact(0, 1)));
    candidate.mark_approval(3);
    assert!(check_approval(&candidate, &approval_entry, RequiredTranches::Exact(0, 0)));
    assert!(check_approval(&candidate, &approval_entry, RequiredTranches::All));
    assert!(!check_approval(&candidate, &approval_entry, RequiredTranches::Pending(0)));
}

#[test]
fn empty_bitfields_under_each_verdict() {
    let candidate = CandidateEntry::new(0, Bitfield::new(0));
    let approval_entry = ApprovalEntry::new(0, 0);
    assert!(!check_approval(&candidate, &approval_entry, RequiredTranches::All));
    assert!(check_approval(&candidate, &approval_entry, RequiredTranches::Exact(0, 0)));
    assert!(check_approval(&candidate, &approval_entry, RequiredTranches::Exact(9, 3)));
}
