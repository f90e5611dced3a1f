use rotate_pairs::board::{copy_rows, Input, Output};
use rotate_pairs::generate::gen;
use rotate_pairs::replay::{fits, replay, rotate, ReplayError};
use rotate_pairs::score::{compute_score, compute_score_details, count_matches};

fn board4() -> Input {
    Input {
        size: 4,
        board: vec![vec![0, 1, 2, 3], vec![4, 5, 6, 7], vec![8, 9, 10, 11], vec![12, 13, 14, 15]],
    }
}

#[test]
fn copy_rows_copies() {
    let b = board4();
    assert_eq!(copy_rows(&b.board), b.board);
}

#[test]
fn a_block_fits_when_all_its_cells_are_on_the_board() {
    assert!(fits(4, (0, 0, 4)));
    assert!(fits(4, (2, 3, 1)));
    assert!(!fits(4, (1, 0, 4)));
    assert!(!fits(4, (0, 3, 2)));
    assert!(fits(4, (9, 9, 0)));
    assert!(!fits(4, (usize::MAX, 0, 2)));
    assert!(!fits(4, (0, 1, usize::MAX)));
}

#[test]
fn a_quarter_turn_is_clockwise() {
    let b = board4();
    let r = rotate(&b.board, 4, (0, 0, 2));
    assert_eq!(
        r,
        vec![vec![4, 0, 2, 3], vec![5, 1, 6, 7], vec![8, 9, 10, 11], vec![12, 13, 14, 15]]
    );
    let r = rotate(&b.board, 4, (1, 1, 3));
    assert_eq!(
        r,
        vec![vec![0, 1, 2, 3], vec![4, 13, 9, 5], vec![8, 14, 10, 6], vec![12, 15, 11, 7]]
    );
    assert_eq!(rotate(&b.board, 4, (3, 3, 1)), b.board);
    assert_eq!(rotate(&b.board, 4, (2, 2, 0)), b.board);
}

#[test]
fn a_quarter_turn_transposes_and_then_reverses_each_row() {
    let b = gen(1);
    let r = rotate(&b.board, b.size, (0, 0, 2));
    // transpose of the block [[a, b], [c, d]] is [[a, c], [b, d]]; reversed rows: [[c, a], [d, b]]
    assert_eq!(r[0][0], b.board[1][0]);
    assert_eq!(r[0][1], b.board[0][0]);
    assert_eq!(r[1][0], b.board[1][1]);
    assert_eq!(r[1][1], b.board[0][1]);
    for i in 0..b.size {
        for j in 0..b.size {
            if i >= 2 || j >= 2 {
                assert_eq!(r[i][j], b.board[i][j]);
            }
        }
    }
}

#[test]
fn four_quarter_turns_give_the_board_back() {
    let b = gen(1);
    let ops = Output { out: vec![(0, 0, 2); 4] };
    let boards = replay(&b, &ops).unwrap();
    assert_eq!(boards.len(), 4);
    assert_ne!(boards[0], b);
    assert_eq!(boards[3], b);
    let (_, err, last) = compute_score_details(&b, &ops.out);
    assert_eq!(err, "");
    assert_eq!(last, b.board);
}

#[test]
fn a_quarter_turn_keeps_the_values() {
    let b = gen(7);
    let r = rotate(&b.board, b.size, (1, 0, 3));
    let mut before: Vec<usize> = b.board.iter().flatten().copied().collect();
    let mut after: Vec<usize> = r.iter().flatten().copied().collect();
    before.sort();
    after.sort();
    assert_eq!(before, after);
}

#[test]
fn replay_hands_back_the_board_after_each_move() {
    let b = board4();
    let ops = Output { out: vec![(0, 0, 2), (0, 1, 2)] };
    let boards = replay(&b, &ops).unwrap();
    assert_eq!(boards.len(), 2);
    assert_eq!(boards[0].size, 4);
    assert_eq!(boards[0].board, rotate(&b.board, 4, (0, 0, 2)));
    assert_eq!(boards[1].board, rotate(&boards[0].board, 4, (0, 1, 2)));
    assert_eq!(boards[1].board[0], vec![4, 1, 0, 3]);
    assert_eq!(boards[1].board[1], vec![5, 6, 2, 7]);
    assert_eq!(replay(&b, &Output { out: vec![] }), Ok(vec![]));
}

#[test]
fn replay_names_the_first_move_that_does_not_fit() {
    let b = board4();
    let ops = Output { out: vec![(0, 0, 2), (3, 3, 2), (0, 0, 9)] };
    assert_eq!(replay(&b, &ops), Err(ReplayError::OutOfRange { index: 1 }));
}

#[test]
fn the_score_counts_equal_neighbours() {
    let rows = vec![vec![1, 1, 2], vec![1, 3, 2], vec![4, 3, 3]];
    // pairs: (0,0)-(0,1), (0,0)-(1,0), (0,2)-(1,2), (1,1)-(2,1), (2,1)-(2,2)
    assert_eq!(count_matches(&rows, 3), 5);
    assert_eq!(count_matches(&vec![vec![7]], 1), 0);
    assert_eq!(count_matches(&vec![], 0), 0);
    assert_eq!(count_matches(&vec![vec![5, 5], vec![5, 5]], 2), 4);
}

#[test]
fn the_score_is_taken_after_the_moves() {
    let b = Input { size: 2, board: vec![vec![0, 1], vec![1, 0]] };
    assert_eq!(compute_score(&b, &Output { out: vec![] }), (0, String::new()));
    let c = Input { size: 3, board: vec![vec![0, 1, 2], vec![0, 3, 3], vec![1, 2, 4]] };
    // before: (0,0)-(1,0) and (1,1)-(1,2)
    assert_eq!(compute_score(&c, &Output { out: vec![] }), (2, String::new()));
    // turning the top-left block gives 0 0 2 / 3 1 3 / 1 2 4: (0,0)-(0,1)
    let (score, err, last) = compute_score_details(&c, &[(0, 0, 2)]);
    assert_eq!(last, vec![vec![0, 0, 2], vec![3, 1, 3], vec![1, 2, 4]]);
    assert_eq!((score, err.as_str()), (1, ""));
}

#[test]
fn a_move_that_does_not_fit_gives_score_zero() {
    let c = Input { size: 3, board: vec![vec![0, 0, 0], vec![0, 0, 0], vec![0, 0, 0]] };
    assert_eq!(compute_score(&c, &Output { out: vec![] }).0, 12);
    let ops = Output { out: vec![(0, 0, 2), (2, 2, 2)] };
    assert_eq!(compute_score(&c, &ops), (0, "Out of range".to_string()));
    let d = Input { size: 2, board: vec![vec![0, 1], vec![2, 3]] };
    let (score, err, last) = compute_score_details(&d, &[(0, 0, 2), (0, 1, 2), (0, 0, 2)]);
    assert_eq!((score, err.as_str()), (0, "Out of range"));
    assert_eq!(last, vec![vec![2, 0], vec![3, 1]]);
}

#[test]
fn a_board_of_side_four_turned_once_and_four_times() {
    let b = rotate_pairs::generate::place(4, &vec![5, 0, 9, 3, 7, 1, 1, 6, 2, 0, 4, 1, 0, 2, 1, 0]);
    assert_eq!(
        b.board,
        vec![vec![2, 0, 5, 2], vec![5, 1, 1, 6], vec![3, 0, 7, 4], vec![3, 7, 6, 4]]
    );
    let once = replay(&b, &Output { out: vec![(0, 0, 2)] }).unwrap();
    assert_eq!(
        once[0].board,
        vec![vec![5, 2, 5, 2], vec![1, 0, 1, 6], vec![3, 0, 7, 4], vec![3, 7, 6, 4]]
    );
    let four = replay(&b, &Output { out: vec![(0, 0, 2); 4] }).unwrap();
    assert_eq!(four[3], b);
    assert_eq!(compute_score(&b, &Output { out: vec![(0, 0, 2); 4] }), compute_score(&b, &Output { out: vec![] }));
}

#[test]
fn a_misfit_zeroes_the_score_wherever_it_stands() {
    let c = Input { size: 3, board: vec![vec![0, 0, 0], vec![0, 0, 0], vec![0, 0, 0]] };
    for ops in [
        vec![(0, 0, 4)],
        vec![(0, 0, 3), (1, 1, 3)],
        vec![(0, 0, 1), (0, 0, 2), (0, 2, 2), (0, 0, 1)],
        vec![(3, 0, 1)],
    ] {
        assert_eq!(compute_score(&c, &Output { out: ops }), (0, "Out of range".to_string()));
    }
}
