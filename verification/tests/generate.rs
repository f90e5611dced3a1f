use rand::{Rng, SeedableRng};
use rotate_pairs::generate::{gen, place};

#[test]
fn gen_gives_the_same_board_for_the_same_seed() {
    let a = gen(1);
    let b = gen(1);
    assert_eq!(a, b);
}

#[test]
fn place_takes_the_picked_value_among_those_left() {
    // pool of a 2-by-2 board: 0 0 1 1
    let b = place(2, &vec![3, 0, 1, 0]);
    assert_eq!(b.size, 2);
    assert_eq!(b.board, vec![vec![1, 0], vec![1, 0]]);
}

#[test]
fn every_value_below_half_the_cells_stands_twice() {
    for seed in 0..40u64 {
        let b = gen(seed);
        assert!(b.size % 2 == 0 && 4 <= b.size && b.size <= 22, "size {}", b.size);
        assert_eq!(b.board.len(), b.size);
        let mut count = vec![0usize; b.size * b.size / 2];
        for row in &b.board {
            assert_eq!(row.len(), b.size);
            for &v in row {
                count[v] += 1;
            }
        }
        assert!(count.iter().all(|&c| c == 2));
    }
}

#[test]
fn seeds_give_different_boards() {
    let boards: Vec<_> = (0..8u64).map(gen).collect();
    assert!(boards.iter().any(|b| *b != boards[0]));
    assert!(boards.iter().any(|b| b.board[0] != (0..b.size).map(|c| c / 2).collect::<Vec<_>>()));
}

#[test]
fn gen_draws_as_the_seeded_generator_does() {
    let mut rng = rand::rngs::StdRng::seed_from_u64(5);
    let size = rng.gen_range(2..12usize) * 2;
    let mut left: Vec<usize> = (0..size * size).map(|k| k / 2).collect();
    let mut board = vec![vec![0; size]; size];
    for row in board.iter_mut() {
        for cell in row.iter_mut() {
            let idx = rng.gen_range(0..left.len());
            *cell = left.remove(idx);
        }
    }
    let b = gen(5);
    assert_eq!(b.size, size);
    assert_eq!(b.board, board);
}

#[test]
fn place_deals_in_order_when_every_pick_is_the_first() {
    let b = place(4, &vec![0; 16]);
    assert_eq!(
        b.board,
        vec![vec![0, 0, 1, 1], vec![2, 2, 3, 3], vec![4, 4, 5, 5], vec![6, 6, 7, 7]]
    );
    assert_eq!(place(0, &vec![]).board, Vec::<Vec<usize>>::new());
}

#[test]
fn a_generated_board_scores_at_most_one_pair_for_each_value() {
    for seed in 0..40u64 {
        let b = gen(seed);
        let score = rotate_pairs::score::count_matches(&b.board, b.size);
        assert!(0 <= score && score as usize <= b.size * b.size / 2);
    }
    // every value beside its twin: the bound is reached
    let b = place(2, &vec![0, 0, 0, 0]);
    assert_eq!(rotate_pairs::score::count_matches(&b.board, 2), 2);
}
