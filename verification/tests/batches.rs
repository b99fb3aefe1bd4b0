use twistypuzzle::batch::PuzzleBatch;

/// Three slots, colored 0, 0, 1, turned by a three-cycle and its inverse.
fn batch(count: usize) -> PuzzleBatch {
    PuzzleBatch::from_table(vec![vec![1, 2, 0], vec![2, 0, 1]], vec![0, 0, 1], 2, count).unwrap()
}

#[test]
fn a_new_batch_is_solved() {
    let b = batch(2);
    assert_eq!(b.len(), 2);
    assert_eq!(b.sticker_count(), 3);
    assert_eq!(b.action_count(), 2);
    assert_eq!(b.solved().unwrap(), vec![true, true]);
    assert_eq!(b.sticker_ids().unwrap(), vec![0, 1, 2, 0, 1, 2]);
    assert_eq!(b.observations().unwrap(), vec![0, 0, 1, 0, 0, 1]);
}

#[test]
fn a_step_then_an_undo_restores_the_batch() {
    let mut b = batch(2);
    let out = b.step(&[0, 1]).unwrap();
    assert!(out.iter().all(|o| o.applied));
    assert_eq!(b.sticker_ids().unwrap(), vec![1, 2, 0, 2, 0, 1]);
    assert_eq!(b.history(0).unwrap(), &[0]);
    assert_eq!(b.move_counts(), vec![1, 1]);
    let undone = b.undo(&[true, true]).unwrap();
    assert_eq!(undone, vec![true, true]);
    assert_eq!(b.sticker_ids().unwrap(), vec![0, 1, 2, 0, 1, 2]);
    assert_eq!(b.solved().unwrap(), vec![true, true]);
}

#[test]
fn an_action_out_of_range_is_refused() {
    let mut b = batch(1);
    assert!(b.step(&[2]).is_err() || !b.step(&[2]).unwrap()[0].applied);
    assert!(b.step(&[0, 0]).is_err());
}

#[test]
fn scrambles_are_reproducible_from_a_seed() {
    let mut a = batch(3);
    let mut b = batch(3);
    a.seed_all(99);
    b.seed_all(99);
    a.scramble(&[5, 6, 7]).unwrap();
    b.scramble(&[5, 6, 7]).unwrap();
    assert_eq!(a.sticker_ids().unwrap(), b.sticker_ids().unwrap());
    assert_eq!(a.move_counts(), vec![5, 6, 7]);
    a.solve().unwrap();
    assert_eq!(a.solved().unwrap(), vec![true, true, true]);
    assert_eq!(a.move_counts(), vec![0, 0, 0]);
}

#[test]
fn malformed_tables_are_refused() {
    assert!(PuzzleBatch::from_table(vec![vec![0, 0, 1]], vec![0, 0, 1], 2, 1).is_err());
    assert!(PuzzleBatch::from_table(vec![vec![1, 2, 0]], vec![0, 0, 2], 2, 1).is_err());
    assert!(PuzzleBatch::from_table(vec![vec![1, 2, 0]], vec![0, 0, 1], 2, 0).is_err());
}

#[test]
fn states_can_be_set_by_sticker_or_by_color() {
    let mut b = batch(1);
    b.set_states(&[2, 0, 1]).unwrap();
    assert_eq!(b.sticker_ids().unwrap(), vec![2, 0, 1]);
    assert!(b.set_states(&[0, 0, 1]).is_err());
    b.set_colors(&[1, 0, 0]).unwrap();
    assert_eq!(b.observations().unwrap(), vec![1, 0, 0]);
    assert!(b.set_colors(&[1, 1, 0]).is_err());
}

#[test]
fn refused_steps_say_what_was_wrong() {
    let mut b = batch(2);
    let e = b.step(&[0]).err().expect("refused");
    assert_eq!(e.message(), "got 1 actions for 2 puzzles");
    assert_eq!(e.kind(), "RangeError");
    let e = b.step(&[1, 7]).err().expect("refused");
    assert_eq!(e.message(), "action 7 out of range (have 2)");
    assert_eq!(b.sticker_ids().unwrap(), vec![0, 1, 2, 0, 1, 2]);
}

#[test]
fn a_missing_puzzle_is_named_in_the_refusal() {
    let mut b = batch(2);
    let e = b.history(5).err().expect("refused");
    assert_eq!(e.message(), "puzzle 5 out of range (have 2)");
    let e = b.seed(2, 9).err().expect("refused");
    assert_eq!(e.message(), "puzzle 2 out of range (have 2)");
}

#[test]
fn refused_flag_and_depth_lists_are_counted() {
    let mut b = batch(2);
    let e = b.undo(&[true]).err().expect("refused");
    assert_eq!(e.message(), "got 1 flags for 2 puzzles");
    let e = b.scramble(&[1, 2, 3]).err().expect("refused");
    assert_eq!(e.message(), "got 3 depths for 2 puzzles");
}

#[test]
fn refused_states_name_the_row() {
    let mut b = batch(2);
    let e = b.set_states(&[0, 1, 2, 0, 1]).err().expect("refused");
    assert_eq!(
        e.message(),
        "a state of this puzzle is 3 slots and this batch holds 2 of them, so 5 values is not a state each"
    );
    let e = b.set_states(&[0, 1, 2, 0, 0, 2]).err().expect("refused");
    assert_eq!(e.message(), "row 1 is not an arrangement of this puzzle's 3 stickers");
}
