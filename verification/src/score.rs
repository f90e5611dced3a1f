//! Scoring: the score of a board is the number of pairs of neighbouring cells,
//! side by side or one above the other, that hold the same value.

use crate::board::{copy_rows, grid_of, is_square, Input, Op, Output};
use crate::replay::{all_fit, first_misfit, fits, op_fits, replayed, rotate};
use crate::replay::{lemma_misfit_skips, lemma_replayed_square};
use vstd::prelude::*;

verus! {

/// The pairs that the cell `(r, c)` forms with its neighbour to the right and
/// with its neighbour below, counted where the two values are equal.
pub open spec fn cell_matches(g: Seq<Seq<usize>>, r: int, c: int) -> int {
    (if c + 1 < g[r].len() && g[r][c] == g[r][c + 1] {
        1int
    } else {
        0int
    }) + (if r + 1 < g.len() && g[r][c] == g[r + 1][c] {
        1int
    } else {
        0int
    })
}

/// The equal pairs counted at the first `c` cells of row `r`.
pub open spec fn row_matches(g: Seq<Seq<usize>>, r: int, c: int) -> int
    decreases c,
{
    if c <= 0 {
        0
    } else {
        row_matches(g, r, c - 1) + cell_matches(g, r, c - 1)
    }
}

/// The equal pairs counted at the first `r` rows.
pub open spec fn rows_matches(g: Seq<Seq<usize>>, r: int) -> int
    decreases r,
{
    if r <= 0 {
        0
    } else {
        rows_matches(g, r - 1) + row_matches(g, r - 1, g[r - 1].len() as int)
    }
}

/// The score of a grid: the number of unordered pairs of cells next to each
/// other in a row or in a column that hold equal values. Each pair is counted
/// once, at its left or upper cell.
pub open spec fn adjacent_matches(g: Seq<Seq<usize>>) -> int {
    rows_matches(g, g.len() as int)
}

/// A board is small enough for its score to fit the score's type.
pub open spec fn score_fits(size: int) -> bool {
    2 * size * size <= i64::MAX
}

proof fn lemma_row_matches_bound(g: Seq<Seq<usize>>, r: int, c: int)
    requires
        0 <= c,
    ensures
        0 <= row_matches(g, r, c) <= 2 * c,
    decreases c,
{
    if c > 0 {
        lemma_row_matches_bound(g, r, c - 1);
    }
}

proof fn lemma_rows_matches_bound(g: Seq<Seq<usize>>, size: int, r: int)
    requires
        is_square(g, size),
        0 <= r <= size,
    ensures
        0 <= rows_matches(g, r) <= 2 * r * size,
    decreases r,
{
    if r > 0 {
        lemma_rows_matches_bound(g, size, r - 1);
        lemma_row_matches_bound(g, r - 1, size);
        assert(2 * (r - 1) * size + 2 * size == 2 * r * size) by (nonlinear_arith);
    }
}

/// The score is never negative and at most twice the number of cells.
pub proof fn lemma_adjacent_matches_bound(g: Seq<Seq<usize>>, size: int)
    requires
        is_square(g, size),
    ensures
        0 <= adjacent_matches(g) <= 2 * size * size,
{
    lemma_rows_matches_bound(g, size, size);
}

/// Counts the equal neighbouring pairs of a board.
pub fn count_matches(rows: &Vec<Vec<usize>>, size: usize) -> (score: i64)
    requires
        is_square(grid_of(*rows), size as int),
        score_fits(size as int),
    ensures
        score == adjacent_matches(grid_of(*rows)),
{
    let ghost g = grid_of(*rows);
    let mut score: i64 = 0;
    let mut i: usize = 0;
    while i < size
        invariant
            i <= size,
            g == grid_of(*rows),
            is_square(g, size as int),
            score_fits(size as int),
            score == rows_matches(g, i as int),
        decreases size - i,
    {
        let ghost before = score as int;
        let mut j: usize = 0;
        while j < size
            invariant
                i < size,
                j <= size,
                g == grid_of(*rows),
                is_square(g, size as int),
                score_fits(size as int),
                before == rows_matches(g, i as int),
                score == before + row_matches(g, i as int, j as int),
            decreases size - j,
        {
            proof {
                lemma_rows_matches_bound(g, size as int, i as int);
                lemma_row_matches_bound(g, i as int, j as int);
                assert(2 * i * size + 2 * size <= 2 * size * size) by (nonlinear_arith)
                    requires
                        0 <= i < size,
                ;
                assert(g[i as int].len() == size);
            }
            if j + 1 < size && rows[i][j] == rows[i][j + 1] {
                score = score + 1;
            }
            if i + 1 < size {
                assert(g[i as int + 1].len() == size);
                if rows[i][j] == rows[i + 1][j] {
                    score = score + 1;
                }
            }
            j += 1;
        }
        assert(g[i as int].len() == size);
        i += 1;
    }
    score
}

/// The message reported where a move does not fit the board.
pub open spec fn out_of_range_text() -> Seq<char> {
    "Out of range"@
}

/// Replays `out` on the board and scores where it ends. The result is the
/// score, the error message and the final board.
///
/// Where every move fits, the message is empty, the board is the one after
/// all moves, and the score counts its equal neighbouring pairs. Where a move
/// does not fit, the score is 0, the message says so, and the board is the
/// one reached before the first such move. A score is taken only where every
/// move fits, and only there must the board be small enough for it.
pub fn compute_score_details(input: &Input, out: &[Op]) -> (r: (i64, String, Vec<Vec<usize>>))
    requires
        input.wf(),
        all_fit(input.size as int, out@) ==> score_fits(input.size as int),
    ensures
        all_fit(input.size as int, out@) ==> {
            &&& r.0 == adjacent_matches(replayed(input.grid(), out@))
            &&& r.1@.len() == 0
            &&& grid_of(r.2) == replayed(input.grid(), out@)
        },
        !all_fit(input.size as int, out@) ==> {
            &&& r.0 == 0
            &&& r.1@ == out_of_range_text()
            &&& grid_of(r.2) == replayed(
                input.grid(),
                out@.take(first_misfit(input.size as int, out@)),
            )
        },
        is_square(grid_of(r.2), input.size as int),
{
    let size = input.size;
    let ghost g0 = input.grid();
    let mut b = copy_rows(&input.board);
    let mut k: usize = 0;
    assert(out@.take(0) =~= Seq::<Op>::empty());
    while k < out.len()
        invariant
            k <= out@.len(),
            size == input.size,
            g0 == input.grid(),
            is_square(g0, size as int),
            forall|j: int| 0 <= j < k ==> op_fits(size as int, #[trigger] out@[j]),
            grid_of(b) == replayed(g0, out@.take(k as int)),
        decreases out@.len() - k,
    {
        proof {
            lemma_replayed_square(g0, size as int, out@.take(k as int));
        }
        let op = out[k];
        if !fits(size, op) {
            proof {
                lemma_misfit_skips(size as int, out@, k as int);
                assert(!op_fits(size as int, out@[k as int]));
            }
            return (0, "Out of range".to_owned(), b);
        }
        proof {
            assert(out@.take(k + 1).drop_last() =~= out@.take(k as int));
            assert(out@.take(k + 1).last() == out@[k as int]);
        }
        b = rotate(&b, size, op);
        k += 1;
    }
    proof {
        assert(out@.take(k as int) =~= out@);
        lemma_replayed_square(g0, size as int, out@);
    }
    let score = count_matches(&b, size);
    (score, String::new(), b)
}

/// Scores a list of moves on a board: the score and the error message.
/// Where the message is not empty the score is 0, whatever was counted.
pub fn compute_score(input: &Input, out: &Output) -> (r: (i64, String))
    requires
        input.wf(),
        all_fit(input.size as int, out@) ==> score_fits(input.size as int),
    ensures
        all_fit(input.size as int, out@) ==> {
            &&& r.0 == adjacent_matches(replayed(input.grid(), out@))
            &&& r.1@.len() == 0
        },
        !all_fit(input.size as int, out@) ==> {
            &&& r.0 == 0
            &&& r.1@ == out_of_range_text()
        },
        r.1@.len() > 0 ==> r.0 == 0,
{
    let (score, err, _) = compute_score_details(input, out.out.as_slice());
    if err.as_str().unicode_len() > 0 {
        (0, err)
    } else {
        (score, err)
    }
}

} // verus!
