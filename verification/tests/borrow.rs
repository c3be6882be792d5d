use audio_engine::borrow::{
    assert_index_valid, borrow_buffers, check_borrows, slot_claimed, BorrowError,
};

#[test]
fn index_check_marks_the_slot() {
    let mut mask = 0u64;
    assert_index_valid(3, 16, &mut mask, false);
    assert_eq!(mask, 0b1000);
    // A slot may be read as often as one likes.
    assert_index_valid(3, 16, &mut mask, false);
    assert_eq!(mask, 0b1000);
    assert_index_valid(0, 16, &mut mask, true);
    assert_eq!(mask, 0b1001);
    assert_index_valid(63, 64, &mut mask, true);
    assert_eq!(mask, (1 << 63) | 0b1001);
}

#[test]
fn claimed_slots_are_told_from_the_mask() {
    let mut mask = 0b0100u64;
    assert!(slot_claimed(2, mask));
    assert!(!slot_claimed(1, mask));
    assert!(!slot_claimed(63, mask));
    // A reader marks the slot too, so a writer behind it finds it claimed.
    assert_index_valid(7, 16, &mut mask, false);
    assert!(slot_claimed(7, mask));
    assert_index_valid(5, 16, &mut mask, true);
    assert!(slot_claimed(5, mask));
    assert_eq!(mask, 0b1010_0100);
}

#[test]
fn guard_accepts_distinct_outputs() {
    assert_eq!(check_borrows(64, 4, &[0, 1], &[2, 3]), Ok(()));
    assert_eq!(check_borrows(64, 4, &[], &[15, 0, 7]), Ok(()));
    // Inputs may share a slot.
    assert_eq!(check_borrows(64, 4, &[1, 1, 1], &[0]), Ok(()));
    assert_eq!(check_borrows(64, 4, &[], &[]), Ok(()));
}

#[test]
fn guard_rejects_duplicate_outputs() {
    assert_eq!(
        check_borrows(64, 4, &[], &[2, 2]),
        Err(BorrowError::AlreadyBorrowed { index: 2 })
    );
    assert_eq!(
        check_borrows(64, 4, &[0], &[1, 2, 3, 1]),
        Err(BorrowError::AlreadyBorrowed { index: 1 })
    );
}

#[test]
fn guard_rejects_an_output_that_is_read() {
    assert_eq!(
        check_borrows(64, 4, &[0, 1], &[1]),
        Err(BorrowError::AlreadyBorrowed { index: 1 })
    );
}

#[test]
fn guard_rejects_slots_outside_the_store() {
    // 64 samples in blocks of 4 are 16 slots.
    assert_eq!(
        check_borrows(64, 4, &[16], &[]),
        Err(BorrowError::OutOfBounds { index: 16, max: 16 })
    );
    assert_eq!(
        check_borrows(64, 4, &[], &[99]),
        Err(BorrowError::OutOfBounds { index: 99, max: 16 })
    );
    // 67 samples are still 16 whole slots.
    assert_eq!(
        check_borrows(67, 4, &[16], &[]),
        Err(BorrowError::OutOfBounds { index: 16, max: 16 })
    );
    // No more than 64 slots are tracked, however large the store.
    assert_eq!(check_borrows(1000, 1, &[63], &[]), Ok(()));
    assert_eq!(
        check_borrows(1000, 1, &[64], &[]),
        Err(BorrowError::OutOfBounds { index: 64, max: 64 })
    );
}

#[test]
fn guard_rejects_empty_blocks() {
    assert_eq!(check_borrows(64, 0, &[], &[]), Err(BorrowError::EmptyBlock));
}

#[test]
fn guard_reports_the_first_fault() {
    assert_eq!(
        check_borrows(64, 4, &[20], &[1, 1]),
        Err(BorrowError::OutOfBounds { index: 20, max: 16 })
    );
    assert_eq!(
        check_borrows(64, 4, &[], &[1, 1, 20]),
        Err(BorrowError::AlreadyBorrowed { index: 1 })
    );
}

#[test]
fn views_are_disjoint() {
    let store: Vec<f32> = (0..12).map(|i| i as f32).collect();
    let ins = [0usize, 0];
    let outs = [2usize, 1];
    let mut block = borrow_buffers(store, 3, &ins, &outs);
    assert_eq!(block.samples(), 3);
    assert_eq!(block.num_inputs(), 2);
    assert_eq!(block.num_outputs(), 2);
    assert_eq!(block.input_slice(0), &[0.0, 1.0, 2.0]);
    assert_eq!(block.input_slice(1), &[0.0, 1.0, 2.0]);
    assert_eq!(block.input_sample(1, 2), 2.0);
    assert_eq!(block.output_sample(0, 0), 6.0);
    block.set_output_sample(0, 1, -1.0);
    block.set_output_sample(1, 2, -2.0);
    assert_eq!(block.output_sample(0, 1), -1.0);
    assert_eq!(block.output_sample(1, 2), -2.0);
    let store = block.into_store();
    assert_eq!(
        store,
        vec![0.0, 1.0, 2.0, 3.0, 4.0, -2.0, 6.0, -1.0, 8.0, 9.0, 10.0, 11.0]
    );
}

#[test]
fn guard_tells_before_the_views_are_made() {
    let store = vec![1u8, 2, 3, 4];
    let outs = [0usize, 0];
    // A slot is written twice: the guard says so, and no view is made.
    assert_eq!(
        check_borrows(store.len(), 2, &[], &outs),
        Err(BorrowError::AlreadyBorrowed { index: 0 })
    );
    let outs = [0usize, 1];
    assert_eq!(check_borrows(store.len(), 2, &[], &outs), Ok(()));
    let mut block = borrow_buffers(store, 2, &[], &outs);
    block.set_output_sample(1, 0, 9);
    assert_eq!(block.into_store(), vec![1, 2, 9, 4]);
}
