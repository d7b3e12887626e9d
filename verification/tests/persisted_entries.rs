use approval_voting::bitfield::Bitfield;
use approval_voting::persisted_entries::{ApprovalEntry, CandidateEntry, TrancheEntry};

fn set_bits(bits: &Bitfield) -> Vec<usize> {
    (0..bits.len()).filter(|&i| bits.is_set(i)).collect()
}

#[test]
fn bitfield_starts_cleared() {
    let bits = Bitfield::new(11);
    assert_eq!(bits.len(), 11);
    assert_eq!(bits.count_ones(), 0);
    assert!(set_bits(&bits).is_empty());
    assert_eq!(Bitfield::new(0).len(), 0);
}

#[test]
fn bitfield_set_and_clear() {
    let mut bits = Bitfield::new(11);
    bits.set(3, true);
    bits.set(10, true);
    bits.set(3, true);
    assert_eq!(set_bits(&bits), vec![3, 10]);
    assert_eq!(bits.count_ones(), 2);
    bits.set(3, false);
    assert_eq!(set_bits(&bits), vec![10]);
    assert_eq!(bits.count_ones(), 1);
    assert_eq!(bits.len(), 11);
    assert!(!bits.is_set(11));
    assert!(!bits.is_set(usize::MAX));
}

#[test]
fn bitfield_intersect_keeps_common_bits() {
    let mut bits = Bitfield::new(9);
    for i in [0, 2, 4, 8] {
        bits.set(i, true);
    }
    let mut mask = Bitfield::new(9);
    for i in [2, 3, 8] {
        mask.set(i, true);
    }
    bits.intersect(&mask);
    assert_eq!(set_bits(&bits), vec![2, 8]);
    assert_eq!(bits.len(), 9);

    // A shorter mask clears what lies past its end.
    let mut long = Bitfield::new(9);
    long.set(1, true);
    long.set(7, true);
    let mut short = Bitfield::new(4);
    short.set(1, true);
    long.intersect(&short);
    assert_eq!(set_bits(&long), vec![1]);
    assert_eq!(long.len(), 9);
}

#[test]
fn bitfield_clone_is_independent() {
    let mut bits = Bitfield::new(5);
    bits.set(1, true);
    let copy = bits.clone();
    bits.set(4, true);
    assert_eq!(set_bits(&copy), vec![1]);
    assert_eq!(copy.len(), 5);
    assert_eq!(set_bits(&bits), vec![1, 4]);
}

#[test]
fn new_approval_entry_is_blank() {
    let entry = ApprovalEntry::new(7, 3);
    assert_eq!(entry.n_validators(), 7);
    assert_eq!(entry.backing_group(), 3);
    assert!(entry.tranches().is_empty());
    assert!(!entry.is_approved());
    assert!(!entry.is_assigned(0));
    assert!(!entry.is_assigned(7));
}

#[test]
fn import_keeps_tranches_ascending() {
    let mut entry = ApprovalEntry::new(8, 0);
    entry.import_assignment(5, 0, 50);
    entry.import_assignment(1, 1, 10);
    entry.import_assignment(3, 2, 30);
    entry.import_assignment(1, 3, 11);
    entry.import_assignment(9, 4, 90);
    entry.import_assignment(0, 5, 1);

    let tranches: Vec<u32> = entry.tranches().iter().map(|t| t.tranche()).collect();
    assert_eq!(tranches, vec![0, 1, 3, 5, 9]);
    assert_eq!(entry.tranches()[1].assignments(), &[(1, 10), (3, 11)]);
    assert_eq!(entry.tranches()[0].assignments(), &[(5, 1)]);
    assert_eq!(entry.tranches()[4].assignments(), &[(4, 90)]);

    let mut seen: Vec<u32> = entry
        .tranches()
        .iter()
        .flat_map(|t| t.assignments().iter().map(|a| a.0))
        .collect();
    seen.sort();
    assert_eq!(seen, vec![0, 1, 2, 3, 4, 5]);

    for v in 0..6 {
        assert!(entry.is_assigned(v));
    }
    assert!(!entry.is_assigned(6));
    assert!(!entry.is_assigned(8));
    assert_eq!(entry.n_validators(), 8);
}

#[test]
fn assignments_up_to_takes_earlier_tranches_only() {
    let mut entry = ApprovalEntry::new(8, 0);
    entry.import_assignment(0, 6, 0);
    entry.import_assignment(2, 1, 0);
    entry.import_assignment(2, 7, 0);
    entry.import_assignment(4, 3, 0);

    assert_eq!(set_bits(&entry.assignments_up_to(0)), vec![6]);
    assert_eq!(set_bits(&entry.assignments_up_to(1)), vec![6]);
    assert_eq!(set_bits(&entry.assignments_up_to(2)), vec![1, 6, 7]);
    assert_eq!(set_bits(&entry.assignments_up_to(3)), vec![1, 6, 7]);
    assert_eq!(set_bits(&entry.assignments_up_to(u32::MAX)), vec![1, 3, 6, 7]);
    assert_eq!(entry.assignments_up_to(2).len(), 8);

    let blank = ApprovalEntry::new(3, 0);
    assert_eq!(blank.assignments_up_to(5).count_ones(), 0);
    assert_eq!(blank.assignments_up_to(5).len(), 3);
}

#[test]
fn approved_flag_is_sticky() {
    let mut entry = ApprovalEntry::new(2, 1);
    entry.import_assignment(0, 1, 0);
    assert!(!entry.is_approved());
    entry.mark_approved();
    assert!(entry.is_approved());
    entry.mark_approved();
    assert!(entry.is_approved());
    assert!(entry.is_assigned(1));
    assert_eq!(entry.backing_group(), 1);
    assert_eq!(entry.tranches().len(), 1);
}

#[test]
fn mark_approval_is_idempotent() {
    let mut candidate = CandidateEntry::new(4, Bitfield::new(5));
    assert_eq!(candidate.session(), 4);
    assert!(!candidate.mark_approval(2));
    assert!(candidate.mark_approval(2));
    assert!(candidate.mark_approval(2));
    assert_eq!(set_bits(candidate.approvals()), vec![2]);
    assert!(!candidate.mark_approval(0));
    assert_eq!(set_bits(candidate.approvals()), vec![0, 2]);
    assert_eq!(candidate.approvals().len(), 5);
    assert_eq!(candidate.session(), 4);
}

#[test]
fn from_tranches_takes_admissible_entries() {
    let entry = ApprovalEntry::from_tranches(
        6,
        vec![
            TrancheEntry::new(1, vec![(4, 10), (0, 11)]),
            TrancheEntry::new(2, vec![]),
            TrancheEntry::new(7, vec![(5, 70)]),
        ],
        2,
        true,
    )
    .unwrap();
    assert_eq!(set_bits(entry.assignments()), vec![0, 4, 5]);
    assert_eq!(entry.n_validators(), 6);
    assert_eq!(entry.backing_group(), 2);
    assert!(entry.is_approved());
    assert_eq!(entry.tranches().len(), 3);
    assert_eq!(entry.tranches()[0].tranche(), 1);
    assert_eq!(entry.tranches()[0].assignments(), &[(4, 10), (0, 11)]);
    assert!(entry.tranches()[1].assignments().is_empty());
    assert_eq!(set_bits(&entry.assignments_up_to(6)), vec![0, 4]);

    let blank = ApprovalEntry::from_tranches(0, Vec::new(), 0, false).unwrap();
    assert_eq!(blank.n_validators(), 0);
    assert!(blank.tranches().is_empty());
}

#[test]
fn from_tranches_is_the_same_as_importing() {
    let mut imported = ApprovalEntry::new(4, 0);
    imported.import_assignment(3, 2, 30);
    imported.import_assignment(0, 1, 5);
    imported.import_assignment(3, 0, 31);
    let restored = ApprovalEntry::from_tranches(
        4,
        vec![TrancheEntry::new(0, vec![(1, 5)]), TrancheEntry::new(3, vec![(2, 30), (0, 31)])],
        0,
        false,
    )
    .unwrap();
    assert_eq!(imported.tranches().len(), restored.tranches().len());
    for (a, b) in imported.tranches().iter().zip(restored.tranches()) {
        assert_eq!(a.tranche(), b.tranche());
        assert_eq!(a.assignments(), b.assignments());
    }
    assert_eq!(set_bits(imported.assignments()), set_bits(restored.assignments()));
}

#[test]
fn from_tranches_refuses_what_is_not_admissible() {
    // Tranches out of order, or twice.
    assert!(ApprovalEntry::from_tranches(
        4,
        vec![TrancheEntry::new(2, vec![(0, 0)]), TrancheEntry::new(1, vec![(1, 0)])],
        0,
        false,
    )
    .is_none());
    assert!(ApprovalEntry::from_tranches(
        4,
        vec![TrancheEntry::new(1, vec![(0, 0)]), TrancheEntry::new(1, vec![(1, 0)])],
        0,
        false,
    )
    .is_none());
    // A validator twice, in one tranche or in two.
    assert!(ApprovalEntry::from_tranches(
        4,
        vec![TrancheEntry::new(0, vec![(3, 0), (3, 1)])],
        0,
        false,
    )
    .is_none());
    assert!(ApprovalEntry::from_tranches(
        4,
        vec![TrancheEntry::new(0, vec![(3, 0)]), TrancheEntry::new(5, vec![(2, 0), (3, 1)])],
        0,
        false,
    )
    .is_none());
    // A validator that the session does not have.
    assert!(ApprovalEntry::from_tranches(4, vec![TrancheEntry::new(0, vec![(4, 0)])], 0, false)
        .is_none());
    assert!(ApprovalEntry::from_tranches(4, vec![TrancheEntry::new(0, vec![(3, 0)])], 0, false)
        .is_some());
}

#[test]
fn candidate_entry_keeps_an_approval_entry_per_block() {
    let first = [7u8; 32];
    let mut second = [7u8; 32];
    second[31] = 8;
    let mut candidate = CandidateEntry::new(3, Bitfield::new(4));
    assert!(candidate.approval_entry(&first).is_none());
    assert!(!candidate.import_assignment(&first, 0, 0, 0));
    assert!(!candidate.mark_approved(&first));
    assert!(candidate.remove_block(&first).is_none());

    assert!(candidate.add_block(first, ApprovalEntry::new(4, 9)));
    assert!(candidate.add_block(second, ApprovalEntry::new(4, 5)));
    assert!(!candidate.add_block(second, ApprovalEntry::new(4, 6)));
    assert!(!candidate.add_block([0u8; 32], ApprovalEntry::new(3, 0)));
    assert_eq!(candidate.approval_entry(&first).unwrap().backing_group(), 9);
    assert_eq!(candidate.approval_entry(&second).unwrap().backing_group(), 5);
    assert!(candidate.approval_entry(&[0u8; 32]).is_none());

    // An assignment goes to the entry under its block only.
    assert!(candidate.import_assignment(&second, 2, 1, 20));
    assert!(candidate.import_assignment(&second, 1, 3, 10));
    assert!(!candidate.import_assignment(&second, 1, 3, 11));
    assert!(!candidate.import_assignment(&second, 1, 4, 11));
    let under_second = candidate.approval_entry(&second).unwrap();
    assert_eq!(set_bits(under_second.assignments()), vec![1, 3]);
    assert_eq!(under_second.tranches().len(), 2);
    assert_eq!(under_second.tranches()[0].assignments(), &[(3, 10)]);
    assert_eq!(under_second.tranches()[1].assignments(), &[(1, 20)]);
    assert!(candidate.approval_entry(&first).unwrap().tranches().is_empty());
    assert!(candidate.import_assignment(&first, 1, 3, 11));

    // So does the approved flag.
    assert!(candidate.mark_approved(&first));
    assert!(candidate.approval_entry(&first).unwrap().is_approved());
    assert!(!candidate.approval_entry(&second).unwrap().is_approved());

    let removed = candidate.remove_block(&first).unwrap();
    assert!(removed.is_approved());
    assert_eq!(set_bits(removed.assignments()), vec![3]);
    assert!(candidate.approval_entry(&first).is_none());
    assert_eq!(set_bits(candidate.approval_entry(&second).unwrap().assignments()), vec![1, 3]);
    assert_eq!(candidate.session(), 3);
}

#[test]
fn bitfield_bytes_have_the_least_significant_bit_first() {
    let mut bits = Bitfield::new(10);
    bits.set(0, true);
    bits.set(9, true);
    assert_eq!(bits.to_bytes(), vec![0x01, 0x02]);
    bits.set(7, true);
    bits.set(3, true);
    assert_eq!(bits.to_bytes(), vec![0x89, 0x02]);
    assert_eq!(Bitfield::new(0).to_bytes(), Vec::<u8>::new());
    assert_eq!(Bitfield::new(8).to_bytes(), vec![0x00]);
    assert_eq!(Bitfield::new(9).to_bytes(), vec![0x00, 0x00]);
}

#[test]
fn bitfield_from_bytes_reads_what_to_bytes_wrote() {
    let restored = Bitfield::from_bytes(&[0x89, 0x02], 10).unwrap();
    assert_eq!(restored.len(), 10);
    assert_eq!(set_bits(&restored), vec![0, 3, 7, 9]);
    assert_eq!(restored.to_bytes(), vec![0x89, 0x02]);

    let mut bits = Bitfield::new(21);
    for i in [1, 8, 13, 20] {
        bits.set(i, true);
    }
    let again = Bitfield::from_bytes(&bits.to_bytes(), 21).unwrap();
    assert_eq!(set_bits(&again), vec![1, 8, 13, 20]);
    assert_eq!(Bitfield::from_bytes(&[], 0).unwrap().len(), 0);
}

#[test]
fn bitfield_from_bytes_refuses_other_bytes() {
    // Too few bytes, too many, a bit past the end.
    assert!(Bitfield::from_bytes(&[0x01], 10).is_none());
    assert!(Bitfield::from_bytes(&[0x01, 0x00, 0x00], 10).is_none());
    assert!(Bitfield::from_bytes(&[0x01, 0x04], 10).is_none());
    assert!(Bitfield::from_bytes(&[0x01, 0x03], 10).is_some());
    assert!(Bitfield::from_bytes(&[], usize::MAX).is_none());
}

#[test]
fn bitfield_bytes_are_those_of_the_backing_store() {
    let bytes = vec![0xA5u8, 0x3C, 0x01];
    let stored = bitvec::vec::BitVec::<bitvec::order::Lsb0, u8>::from_vec(bytes.clone());
    let restored = Bitfield::from_bytes(&bytes, 24).unwrap();
    for i in 0..24 {
        assert_eq!(restored.is_set(i), stored[i]);
    }
    assert_eq!(restored.count_ones(), stored.count_ones());
}

#[test]
fn from_parts_wants_the_bitfield_to_mark_the_assigned() {
    let tranches = || vec![TrancheEntry::new(0, vec![(2, 0)]), TrancheEntry::new(4, vec![(0, 4)])];
    let mut marks = Bitfield::new(3);
    marks.set(0, true);
    marks.set(2, true);
    let entry = ApprovalEntry::from_parts(tranches(), marks.clone(), 1, false).unwrap();
    assert_eq!(set_bits(entry.assignments()), vec![0, 2]);
    assert_eq!(entry.tranches().len(), 2);
    assert_eq!(entry.backing_group(), 1);

    // A bit too many, a bit too few, another length.
    let mut more = marks.clone();
    more.set(1, true);
    assert!(ApprovalEntry::from_parts(tranches(), more, 1, false).is_none());
    let mut fewer = marks.clone();
    fewer.set(2, false);
    assert!(ApprovalEntry::from_parts(tranches(), fewer, 1, false).is_none());
    let mut longer = Bitfield::new(4);
    longer.set(0, true);
    longer.set(2, true);
    assert!(ApprovalEntry::from_parts(tranches(), longer, 1, false).is_some());
    let mut shorter = Bitfield::new(2);
    shorter.set(0, true);
    assert!(ApprovalEntry::from_parts(tranches(), shorter, 1, false).is_none());
    // Bits set with nothing assigned.
    assert!(ApprovalEntry::from_parts(Vec::new(), marks, 1, false).is_none());
    assert!(ApprovalEntry::from_parts(Vec::new(), Bitfield::new(3), 1, false).is_some());
}

#[test]
fn bitfields_compare_by_length_and_bits() {
    let mut a = Bitfield::new(6);
    let mut b = Bitfield::new(6);
    assert!(a.same_bits(&b));
    a.set(5, true);
    assert!(!a.same_bits(&b));
    b.set(5, true);
    assert!(a.same_bits(&b));
    assert!(!a.same_bits(&Bitfield::new(7)));
    assert!(Bitfield::new(0).same_bits(&Bitfield::new(0)));
}
