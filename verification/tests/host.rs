use rotate_pairs::board::{Input, Output};
use rotate_pairs::parse::parse_input;
use rotate_pairs::{gen, get_max_turn, vis, within_limits, Ret, SetMinMax};

const BOARD: &str = "3\n0 1 2 \n0 3 3 \n1 2 4 \n";

fn board3() -> Input {
    Input { size: 3, board: vec![vec![0, 1, 2], vec![0, 3, 3], vec![1, 2, 4]] }
}

fn call(output: &str, turn: usize) -> Ret {
    vis(BOARD.to_string(), output.to_string(), turn)
}

#[test]
fn a_board_is_written_side_first_and_row_by_row() {
    assert_eq!(board3().to_text(), BOARD);
    assert_eq!(Input { size: 0, board: vec![] }.to_text(), "0\n");
    assert_eq!(Input { size: 1, board: vec![vec![17]] }.to_text(), "1\n17 \n");
}

#[test]
fn a_written_board_reads_back() {
    for seed in [0u64, 1, 2, 99] {
        let b = rotate_pairs::generate::gen(seed);
        assert_eq!(parse_input(&b.to_text()), Ok(b));
    }
}

#[test]
fn gen_writes_the_board_of_the_seed() {
    assert_eq!(gen(3), rotate_pairs::generate::gen(3).to_text());
    assert_eq!(gen(-1), rotate_pairs::generate::gen(u64::MAX).to_text());
    assert_eq!(gen(i32::MIN), rotate_pairs::generate::gen(0xffff_ffff_8000_0000).to_text());
    assert_eq!(gen(8), gen(8));
}

#[test]
fn the_turns_are_the_moves() {
    assert_eq!(get_max_turn(BOARD.to_string(), "2 0 0 2 1 1 2".to_string()), 2);
    assert_eq!(get_max_turn(BOARD.to_string(), "0".to_string()), 0);
    assert_eq!(get_max_turn(BOARD.to_string(), "2 0 0 2".to_string()), 0);
    assert_eq!(get_max_turn("3 1".to_string(), "1 0 0 2".to_string()), 0);
}

#[test]
fn a_turn_shows_the_board_after_the_moves_before_it() {
    let b = board3();
    let moves = Output { out: vec![(0, 0, 2), (1, 1, 2)] };
    for turn in 0..=2 {
        let r = call("2 0 0 2 1 1 2", turn);
        let (score, err, svg) = rotate_pairs::turn::vis(&b, &moves, turn);
        assert_eq!(r, Ret { score, err, svg });
        let (score, err, svg) = rotate_pairs::render::vis(&b, &moves.out[..turn], true);
        assert_eq!(r, Ret { score, err, svg });
    }
    assert_eq!(call("2 0 0 2 1 1 2", 0).score, 2);
    assert_eq!(call("2 0 0 2 1 1 2", 1).score, 1);
    assert_eq!(call("2 0 0 2 1 1 2", 7), call("2 0 0 2 1 1 2", 2));
}

#[test]
fn a_text_that_cannot_be_read_gives_the_message_and_no_picture() {
    let none = String::new();
    assert_eq!(call("1 0 0 9", 1), Ret { score: 0, err: "Out of range: 9".into(), svg: none.clone() });
    assert_eq!(call("2 0 0 1", 1), Ret { score: 0, err: "Unexpected EOF".into(), svg: none.clone() });
    assert_eq!(call("1 0 0 1 5", 1), Ret { score: 0, err: "Too many outputs".into(), svg: none.clone() });
    assert_eq!(call("1 0 a 1", 1), Ret { score: 0, err: "Parse error: a".into(), svg: none.clone() });
    assert_eq!(call("1 -1 0 0", 1), Ret { score: 0, err: "Out of range: -1".into(), svg: none.clone() });
    assert_eq!(
        vis("2 1 2 3".to_string(), "0".to_string(), 0),
        Ret { score: 0, err: "Unexpected EOF".into(), svg: none.clone() }
    );
}

#[test]
fn a_move_that_does_not_fit_zeroes_the_score() {
    // row 2, column 2, side 2 passes the reader and reaches past the board
    let r = call("2 0 0 2 2 2 2", 2);
    assert_eq!((r.score, r.err.as_str()), (0, "Out of range"));
    assert!(r.svg.starts_with("<svg"));
    let before = call("2 0 0 2 2 2 2", 1);
    assert_eq!((before.score, before.err.as_str()), (1, ""));
}

#[test]
fn limits_hold_the_side_of_a_board() {
    assert!(within_limits(0));
    assert!(within_limits(46));
    assert!(within_limits(2147483647));
    assert!(!within_limits(2147483648));
    assert!(!within_limits(usize::MAX));
}

#[test]
fn setmin_and_setmax_take_the_better_value() {
    let mut a = 5usize;
    assert!(a.setmin(3));
    assert_eq!(a, 3);
    assert!(!a.setmin(3));
    assert!(!a.setmin(4));
    assert_eq!(a, 3);
    assert!(a.setmax(9));
    assert_eq!(a, 9);
    assert!(!a.setmax(9));
    assert!(!a.setmax(2));
    assert_eq!(a, 9);
    let mut s = -1i64;
    assert!(s.setmax(0));
    assert_eq!(s, 0);
}

#[test]
fn a_board_is_well_formed_when_it_is_square() {
    assert!(board3().is_well_formed());
    assert!(Input { size: 0, board: vec![] }.is_well_formed());
    assert!(!Input { size: 2, board: vec![vec![1, 2]] }.is_well_formed());
    assert!(!Input { size: 2, board: vec![vec![1, 2], vec![3]] }.is_well_formed());
    assert!(!Input { size: 1, board: vec![vec![1], vec![2]] }.is_well_formed());
    assert!(rotate_pairs::generate::gen(11).is_well_formed());
}
