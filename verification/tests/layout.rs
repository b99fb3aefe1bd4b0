use twistypuzzle::layout::Layout;

/// A one-by-one "cube": six facelets, one per face, each slot found on the
/// facelet of its own number.
fn tiny_cube() -> Layout {
    let located: Vec<Option<usize>> = (0..6).map(Some).collect();
    let solved: Vec<u16> = vec![0, 1, 2, 3, 4, 5];
    Layout::on_a_cube(1, &located, &solved, 6).expect("a cube")
}

/// Twelve quarter turns over six facelets: turn `2f` cycles facelets
/// `f+1 -> f+2 -> f+3` (mod 6) one way and `2f + 1` the other.
fn turns() -> Vec<Vec<u32>> {
    let mut out = Vec::new();
    for f in 0..6u32 {
        let a = (f + 1) % 6;
        let b = (f + 2) % 6;
        let c = (f + 3) % 6;
        let mut ccw: Vec<u32> = (0..6).collect();
        ccw[a as usize] = b;
        ccw[b as usize] = c;
        ccw[c as usize] = a;
        let mut cw: Vec<u32> = (0..6).collect();
        cw[b as usize] = a;
        cw[c as usize] = b;
        cw[a as usize] = c;
        out.push(ccw);
        out.push(cw);
    }
    out
}

fn cube_with_turns() -> Layout {
    let mut l = tiny_cube();
    l.derive_moves(&turns(), None, &Vec::new()).expect("moves");
    l
}

#[test]
fn cube_faces_are_named_and_counted() {
    let l = tiny_cube();
    assert!(l.is_cube());
    assert_eq!(l.size(), Some(1));
    assert_eq!(l.facelet_count(), 6);
    assert_eq!(l.face_count(), 6);
    assert_eq!(l.color_count(), 6);
    assert_eq!(l.face_sizes(), &[1, 1, 1, 1, 1, 1]);
    let names: Vec<&str> = l.face_names().iter().map(|s| s.as_str()).collect();
    assert_eq!(names, vec!["U", "D", "L", "R", "B", "F"]);
    assert_eq!(l.goal_colors(), vec![0, 1, 2, 3, 4, 5]);
    assert_eq!(l.goal_ids(), vec![0, 1, 2, 3, 4, 5]);
}

#[test]
fn two_stickers_on_one_facelet_is_not_a_cube() {
    let located = vec![Some(0), Some(0), Some(2), Some(3), Some(4), Some(5)];
    let solved: Vec<u16> = vec![0, 1, 2, 3, 4, 5];
    let e = Layout::on_a_cube(1, &located, &solved, 6).err().expect("refused");
    assert_eq!(e.kind(), "PuzzleError");
}

#[test]
fn a_sticker_off_the_cube_is_refused() {
    let located = vec![Some(0), None, Some(2), Some(3), Some(4), Some(5)];
    let solved: Vec<u16> = vec![0, 1, 2, 3, 4, 5];
    assert!(Layout::on_a_cube(1, &located, &solved, 6).is_err());
}

#[test]
fn a_color_on_two_faces_is_refused() {
    let located: Vec<Option<usize>> = (0..6).map(Some).collect();
    let solved: Vec<u16> = vec![0, 0, 2, 3, 4, 5];
    assert!(Layout::on_a_cube(1, &located, &solved, 6).is_err());
}

#[test]
fn quarter_turns_are_named_and_undo_each_other() {
    let l = cube_with_turns();
    assert_eq!(l.move_count(), 12);
    let names: Vec<&str> = l.move_names().iter().map(|s| s.as_str()).collect();
    assert_eq!(&names[..4], &["U-1", "U1", "D-1", "D1"]);
    assert_eq!(l.inverses()[0], Some(1));
    assert_eq!(l.inverses()[1], Some(0));
    assert_eq!(l.inverse_moves(&[0, 3, 11]).unwrap(), vec![1, 2, 10]);
    assert!(l.inverse_moves(&[12]).is_err());
    assert_eq!(l.actions(), &[None; 12]);
}

#[test]
fn face_names_answer_in_every_spelling() {
    let l = cube_with_turns();
    assert_eq!(l.move_index("U"), Some(1));
    assert_eq!(l.move_index("U1"), Some(1));
    assert_eq!(l.move_index("U+1"), Some(1));
    assert_eq!(l.move_index("U'"), Some(0));
    assert_eq!(l.move_index(" U-1 "), Some(0));
    assert_eq!(l.move_index("F'"), Some(10));
    assert_eq!(l.move_index("F2"), None);
    assert_eq!(l.move_index("Q"), None);
    assert_eq!(l.move_index(""), None);
}

#[test]
fn a_move_and_its_inverse_leave_a_state_unchanged() {
    let l = cube_with_turns();
    let start: Vec<u32> = vec![5, 4, 3, 2, 1, 0, 0, 1, 2, 3, 4, 5];
    let moves = vec![4u32, 7];
    let once = l.next_states(&start, &moves).unwrap();
    assert_ne!(once, start);
    let back = l.next_states(&once, &l.inverse_moves(&moves).unwrap()).unwrap();
    assert_eq!(back, start);
}

#[test]
fn next_states_gathers_through_the_permutation() {
    let l = cube_with_turns();
    let start: Vec<u32> = vec![10, 11, 12, 13, 14, 15];
    // Move 0 sends facelet 1's contents from 2, 2's from 3 and 3's from 1.
    assert_eq!(l.next_states(&start, &[0]).unwrap(), vec![10, 12, 13, 11, 14, 15]);
    assert!(l.next_states(&start, &[0, 1]).is_err());
    assert!(l.next_states(&start, &[12]).is_err());
    assert!(l.next_states(&start[..5], &[0]).is_err());
}

#[test]
fn composed_moves_are_named_by_their_parts() {
    let l = cube_with_turns();
    let m = l.with_moves(&vec![vec![1, 1], vec![], vec![1]]).unwrap();
    let names: Vec<&str> = m.move_names().iter().map(|s| s.as_str()).collect();
    assert_eq!(names, vec!["U1 U1", ".", "U1"]);
    // Two clockwise quarter turns of a three-cycle are one counterclockwise.
    assert_eq!(m.moves()[0], l.moves()[0]);
    assert_eq!(m.moves()[1], vec![0, 1, 2, 3, 4, 5]);
    assert_eq!(m.inverses(), &[Some(2), Some(1), Some(0)]);
    assert_eq!(m.actions(), &[None, None, None]);
    assert!(l.with_moves(&vec![]).is_err());
    assert!(l.with_moves(&vec![vec![0, 99]]).is_err());
}

#[test]
fn walks_end_where_trajectories_end() {
    let l = cube_with_turns();
    let steps = vec![3u32, 0, 5];
    let ends = l.walk(&steps, 7).unwrap();
    let (paths, picks) = l.trajectories(&steps, 7).unwrap();
    let k = 6;
    let longest = 5;
    assert_eq!(paths.len(), steps.len() * (longest + 1) * k);
    assert_eq!(picks.len(), steps.len() * longest);
    for r in 0..steps.len() {
        let last = &paths[r * (longest + 1) * k + longest * k..r * (longest + 1) * k + (longest + 1) * k];
        assert_eq!(last, &ends[r * k..r * k + k]);
        let first = &paths[r * (longest + 1) * k..r * (longest + 1) * k + k];
        assert_eq!(first, &[0, 1, 2, 3, 4, 5]);
        for t in steps[r] as usize..longest {
            assert_eq!(picks[r * longest + t], 12);
        }
    }
    // The row asked for no steps stays solved.
    assert_eq!(&ends[k..2 * k], &[0, 1, 2, 3, 4, 5]);
}

#[test]
fn a_walk_never_undoes_its_last_move() {
    let l = cube_with_turns();
    let steps = vec![40u32; 4];
    let (_, picks) = l.trajectories(&steps, 12345).unwrap();
    for r in 0..4 {
        for t in 1..40 {
            let a = picks[r * 40 + t - 1];
            let b = picks[r * 40 + t];
            assert_ne!(l.inverses()[a as usize], Some(b));
        }
    }
}

#[test]
fn solved_and_one_hot_read_states() {
    let l = cube_with_turns();
    let states: Vec<u32> = vec![0, 1, 2, 3, 4, 5, 1, 0, 2, 3, 4, 5];
    assert_eq!(l.solved(&states).unwrap(), vec![true, false]);
    let hot = l.one_hot(&states[..6]).unwrap();
    assert_eq!(hot.len(), 36);
    for i in 0..6 {
        for f in 0..6 {
            assert_eq!(hot[i * 6 + f], u8::from(i == f));
        }
    }
    assert!(l.solved(&states[..5]).is_err());
}

#[test]
fn facelets_round_trip() {
    let located = vec![Some(3), Some(0), Some(1), Some(2), Some(5), Some(4)];
    let solved: Vec<u16> = vec![5, 4, 3, 2, 1, 0];
    let l = Layout::on_a_cube(1, &located, &solved, 6).unwrap();
    let states: Vec<u32> = vec![5, 4, 3, 2, 1, 0, 0, 1, 2, 3, 4, 5];
    let faces = l.to_facelets(&states).unwrap();
    assert_eq!(l.from_facelets(&faces).unwrap(), states);
    assert_eq!(&faces[..6], &[0, 1, 2, 3, 4, 5]);
    assert!(l.to_facelets(&[9, 0, 0, 0, 0, 0]).is_err());
    let ids: Vec<u32> = vec![0, 1, 2, 3, 4, 5];
    assert_eq!(l.to_facelet_ids(&ids).unwrap(), vec![0, 1, 2, 3, 4, 5]);
}

#[test]
fn a_puzzle_in_its_own_order_keeps_its_names() {
    let mut l = Layout::as_numbered(4, &[0, 0, 1, 1], 2);
    assert!(!l.is_cube());
    assert_eq!(l.face_sizes(), &[2, 2]);
    let faces: Vec<&str> = l.face_names().iter().map(|s| s.as_str()).collect();
    assert_eq!(faces, vec!["0", "1"]);
    let table = vec![vec![1u32, 0, 2, 3], vec![0u32, 1, 3, 2]];
    let names = vec!["A".to_string(), "B".to_string()];
    l.derive_moves(&Vec::new(), Some(&table), &names).unwrap();
    let got: Vec<&str> = l.move_names().iter().map(|s| s.as_str()).collect();
    assert_eq!(got, vec!["A", "B"]);
    assert_eq!(l.actions(), &[Some(0), Some(1)]);
    assert_eq!(l.inverses(), &[Some(0), Some(1)]);
    assert_eq!(l.move_index("B"), Some(1));
    assert_eq!(l.move_index("B'"), None);
    l.set_recipe("?shell=C$1".to_string());
    assert_eq!(l.recipe(), "?shell=C$1");
}

#[test]
fn a_puzzle_without_fixed_moves_cannot_be_numbered() {
    let mut l = Layout::as_numbered(2, &[0, 1], 2);
    let e = l.derive_moves(&Vec::new(), None, &Vec::new()).unwrap_err();
    assert_eq!(e.kind(), "PuzzleError");
}

#[test]
fn a_cube_keeps_only_the_actions_no_face_turn_stands_for() {
    let mut l = tiny_cube();
    // The first action is face turn `U1`; the second is new.
    let table = vec![turns()[1].clone(), vec![1u32, 0, 2, 3, 4, 5]];
    let names = vec!["A1".to_string(), "S".to_string()];
    l.derive_moves(&turns(), Some(&table), &names).unwrap();
    assert_eq!(l.move_count(), 13);
    assert_eq!(l.actions()[1], Some(0));
    assert_eq!(l.actions()[12], Some(1));
    assert_eq!(l.move_names()[12], ":S");
    assert_eq!(l.move_index(":S"), Some(12));
}

#[test]
fn walking_a_puzzle_without_moves_is_refused() {
    let l = tiny_cube();
    assert!(l.walk(&[1], 0).is_err());
    assert_eq!(l.walk(&[0, 0], 0).unwrap(), vec![0, 1, 2, 3, 4, 5, 0, 1, 2, 3, 4, 5]);
    assert!(l.trajectories(&[2], 0).is_err());
}

#[test]
fn a_state_is_written_a_line_per_face() {
    let l = tiny_cube();
    assert_eq!(l.text(&[0, 1, 2, 3, 4, 5]), "U U\nD D\nL L\nR R\nB B\nF F");
    assert_eq!(l.text(&[5, 4, 3, 2, 1, 9]), "U F\nD B\nL R\nR L\nB D\nF ?");
    assert_eq!(l.text(&[0, 1]), "U U\nD D\nL ?\nR ?\nB ?\nF ?");
}

#[test]
fn a_bigger_cube_breaks_each_face_into_rows() {
    let located: Vec<Option<usize>> = (0..24).map(Some).collect();
    let solved: Vec<u16> = (0..24).map(|i| (i / 4) as u16).collect();
    let l = Layout::on_a_cube(2, &located, &solved, 6).expect("a cube");
    let goal: Vec<u32> = (0..24).map(|i| i / 4).collect();
    assert_eq!(l.text(&goal), "U UU/UU\nD DD/DD\nL LL/LL\nR RR/RR\nB BB/BB\nF FF/FF");
}

#[test]
fn other_puzzles_are_drawn_with_digits_and_letters() {
    let l = Layout::as_numbered(3, &[0, 0, 1], 2);
    assert_eq!(l.text(&[0, 1, 0]), "0 01\n1 0");
    let many = Layout::as_numbered(1, &[0], 1);
    assert_eq!(many.text(&[35]), "0 Z");
    assert_eq!(many.text(&[61]), "0 z");
    assert_eq!(many.text(&[62]), "0 ?");
}

#[test]
fn a_composed_move_turns_as_its_parts_in_turn() {
    let l = cube_with_turns();
    let m = l.with_moves(&vec![vec![1, 4], vec![3]]).unwrap();
    let start: Vec<u32> = vec![0, 1, 2, 3, 4, 5, 5, 4, 3, 2, 1, 0];
    let once = l.next_states(&start, &[1, 1]).unwrap();
    let twice = l.next_states(&once, &[4, 4]).unwrap();
    assert_eq!(m.next_states(&start, &[0, 0]).unwrap(), twice);
    assert_eq!(m.next_states(&start, &[1, 1]).unwrap(), l.next_states(&start, &[3, 3]).unwrap());
}

#[test]
fn each_trajectory_state_follows_from_the_one_before() {
    let l = cube_with_turns();
    let steps = vec![4u32, 2];
    let (paths, picks) = l.trajectories(&steps, 99).unwrap();
    let k = 6;
    let longest = 4;
    for r in 0..steps.len() {
        let base = r * (longest + 1) * k;
        for t in 0..longest {
            let now = &paths[base + t * k..base + (t + 1) * k];
            let next = &paths[base + (t + 1) * k..base + (t + 2) * k];
            let pick = picks[r * longest + t];
            if t < steps[r] as usize {
                assert!(pick < 12);
                assert_eq!(l.next_states(now, &[pick]).unwrap(), next.to_vec());
            } else {
                assert_eq!(pick, 12);
                assert_eq!(now, next);
            }
        }
    }
}
