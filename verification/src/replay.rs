//! Replaying moves: the quarter turn of a block, and the boards that a list
//! of moves leads through.

use crate::board::{copy_rows, grid_of, is_square, Input, Op, Output};
use vstd::prelude::*;

verus! {

/// Why a list of moves cannot be replayed.
#[derive(Clone, Copy, Debug, PartialEq, Eq)]
pub enum ReplayError {
    /// The move at `index` names a block that reaches past the board.
    OutOfRange { index: usize },
}

/// Every cell of the block of `op` lies on a board of side `size`.
/// A block of side 0 has no cell, so it fits wherever it is put.
pub open spec fn op_fits(size: int, op: Op) -> bool {
    op.2 == 0 || (op.0 + op.2 <= size && op.1 + op.2 <= size)
}

/// Every move of `ops` fits a board of side `size`.
pub open spec fn all_fit(size: int, ops: Seq<Op>) -> bool {
    forall|k: int| 0 <= k < ops.len() ==> op_fits(size, #[trigger] ops[k])
}

/// The cell `(r, c)` belongs to the block of `op`.
pub open spec fn in_block(op: Op, r: int, c: int) -> bool {
    op.0 <= r < op.0 + op.2 && op.1 <= c < op.1 + op.2
}

/// The grid after the block of `op` was turned a quarter turn clockwise: the
/// value at offset `(i, j)` of the block moves to offset `(j, n - 1 - i)`,
/// and every cell outside the block keeps its value.
pub open spec fn rotated(g: Seq<Seq<usize>>, op: Op) -> Seq<Seq<usize>> {
    Seq::new(
        g.len(),
        |r: int|
            Seq::new(
                g[r].len(),
                |c: int|
                    if in_block(op, r, c) {
                        g[op.0 + op.2 - 1 - (c - op.1)][op.1 + (r - op.0)]
                    } else {
                        g[r][c]
                    },
            ),
    )
}

/// The grid after the moves of `ops` were made in order.
pub open spec fn replayed(g: Seq<Seq<usize>>, ops: Seq<Op>) -> Seq<Seq<usize>>
    decreases ops.len(),
{
    if ops.len() == 0 {
        g
    } else {
        rotated(replayed(g, ops.drop_last()), ops.last())
    }
}

/// The index of the first move from `k` on that does not fit, or the length
/// of `ops` where all of them fit.
pub open spec fn misfit_from(size: int, ops: Seq<Op>, k: int) -> int
    decreases ops.len() - k,
{
    if k < 0 || k >= ops.len() {
        ops.len() as int
    } else if !op_fits(size, ops[k]) {
        k
    } else {
        misfit_from(size, ops, k + 1)
    }
}

/// The index of the first move that does not fit, or the length of `ops`.
pub open spec fn first_misfit(size: int, ops: Seq<Op>) -> int {
    misfit_from(size, ops, 0)
}

/// A quarter turn keeps the shape of the grid.
pub proof fn lemma_rotated_square(g: Seq<Seq<usize>>, size: int, op: Op)
    requires
        is_square(g, size),
    ensures
        is_square(rotated(g, op), size),
{
}

/// Replaying keeps the shape of the grid.
pub proof fn lemma_replayed_square(g: Seq<Seq<usize>>, size: int, ops: Seq<Op>)
    requires
        is_square(g, size),
    ensures
        is_square(replayed(g, ops), size),
    decreases ops.len(),
{
    if ops.len() > 0 {
        lemma_replayed_square(g, size, ops.drop_last());
        lemma_rotated_square(replayed(g, ops.drop_last()), size, ops.last());
    }
}

/// Whether the block of `op` lies on a board of side `size`.
pub fn fits(size: usize, op: Op) -> (b: bool)
    ensures
        b == op_fits(size as int, op),
{
    let (x, y, n) = op;
    n == 0 || (x <= size && n <= size - x && y <= size && n <= size - y)
}

/// Turns the block of `op` a quarter turn clockwise. The new board is built
/// from the old one, which is only read, so no cell is overwritten before it
/// was moved.
pub fn rotate(rows: &Vec<Vec<usize>>, size: usize, op: Op) -> (r: Vec<Vec<usize>>)
    requires
        is_square(grid_of(*rows), size as int),
        op_fits(size as int, op),
    ensures
        grid_of(r) == rotated(grid_of(*rows), op),
{
    let (x, y, n) = op;
    let ghost g = grid_of(*rows);
    let mut out: Vec<Vec<usize>> = Vec::new();
    let mut i: usize = 0;
    while i < size
        invariant
            i <= size,
            op == (x, y, n),
            g == grid_of(*rows),
            is_square(g, size as int),
            op_fits(size as int, op),
            out@.len() == i,
            forall|k: int| 0 <= k < i ==> (#[trigger] out@[k])@ == rotated(g, op)[k],
        decreases size - i,
    {
        let mut row: Vec<usize> = Vec::new();
        let mut j: usize = 0;
        while j < size
            invariant
                i < size,
                j <= size,
                op == (x, y, n),
                g == grid_of(*rows),
                is_square(g, size as int),
                op_fits(size as int, op),
                row@ == rotated(g, op)[i as int].take(j as int),
            decreases size - j,
        {
            assert(g[i as int].len() == size);
            let v = if x <= i && i - x < n && y <= j && j - y < n {
                let sr = x + (n - 1 - (j - y));
                let sc = y + (i - x);
                assert(g[sr as int].len() == size);
                rows[sr][sc]
            } else {
                rows[i][j]
            };
            row.push(v);
            assert(row@ =~= rotated(g, op)[i as int].take(j as int + 1));
            j += 1;
        }
        assert(rotated(g, op)[i as int].take(size as int) =~= rotated(g, op)[i as int]);
        out.push(row);
        i += 1;
    }
    assert(grid_of(out) =~= rotated(g, op));
    out
}

/// Where every move before `k` fits, the first misfit lies at `k` or later.
pub proof fn lemma_misfit_skips(size: int, ops: Seq<Op>, k: int)
    requires
        0 <= k <= ops.len(),
        forall|j: int| 0 <= j < k ==> op_fits(size, #[trigger] ops[j]),
    ensures
        first_misfit(size, ops) == misfit_from(size, ops, k),
    decreases k,
{
    if k > 0 {
        lemma_misfit_skips(size, ops, k - 1);
    }
}

/// The first misfit is the length of the list exactly where every move fits;
/// otherwise it is the index of a move that does not fit, and every move
/// before it fits.
pub proof fn lemma_first_misfit(size: int, ops: Seq<Op>)
    ensures
        0 <= first_misfit(size, ops) <= ops.len(),
        all_fit(size, ops) <==> first_misfit(size, ops) == ops.len(),
        first_misfit(size, ops) < ops.len() ==> !op_fits(size, ops[first_misfit(size, ops)]),
        forall|j: int| 0 <= j < first_misfit(size, ops) ==> op_fits(size, #[trigger] ops[j]),
{
    lemma_misfit_from(size, ops, 0);
}

proof fn lemma_misfit_from(size: int, ops: Seq<Op>, k: int)
    requires
        0 <= k <= ops.len(),
    ensures
        k <= misfit_from(size, ops, k) <= ops.len(),
        misfit_from(size, ops, k) < ops.len() ==> !op_fits(size, ops[misfit_from(size, ops, k)]),
        forall|j: int| k <= j < misfit_from(size, ops, k) ==> op_fits(size, #[trigger] ops[j]),
    decreases ops.len() - k,
{
    if k < ops.len() && op_fits(size, ops[k]) {
        lemma_misfit_from(size, ops, k + 1);
    }
}

/// Replays a list of moves and hands back the board after each of them: the
/// board at index `t` is the one after the moves `0..=t`. Where a move does
/// not fit the board, nothing is replayed and the error carries the index of
/// the first such move.
pub fn replay(input: &Input, ops: &Output) -> (r: Result<Vec<Input>, ReplayError>)
    requires
        input.wf(),
    ensures
        all_fit(input.size as int, ops@) ==> r is Ok,
        r matches Ok(boards) ==> {
            &&& all_fit(input.size as int, ops@)
            &&& boards@.len() == ops@.len()
            &&& forall|t: int|
                0 <= t < ops@.len() ==> {
                    &&& (#[trigger] boards@[t]).size == input.size
                    &&& boards@[t].grid() == replayed(input.grid(), ops@.take(t + 1))
                }
        },
        r matches Err(e) ==> {
            &&& !all_fit(input.size as int, ops@)
            &&& e == (ReplayError::OutOfRange {
                index: first_misfit(input.size as int, ops@) as usize,
            })
        },
{
    let size = input.size;
    let ghost g0 = input.grid();
    let mut k: usize = 0;
    while k < ops.out.len()
        invariant
            k <= ops@.len(),
            ops@ == ops.out@,
            size == input.size,
            forall|j: int| 0 <= j < k ==> op_fits(size as int, #[trigger] ops@[j]),
        decreases ops@.len() - k,
    {
        if !fits(size, ops.out[k]) {
            proof {
                lemma_misfit_skips(size as int, ops@, k as int);
                assert(!op_fits(size as int, ops@[k as int]));
            }
            return Err(ReplayError::OutOfRange { index: k });
        }
        k += 1;
    }
    let mut boards: Vec<Input> = Vec::new();
    let mut current = copy_rows(&input.board);
    let mut t: usize = 0;
    assert(ops@.take(0) =~= Seq::<Op>::empty());
    while t < ops.out.len()
        invariant
            t <= ops@.len(),
            ops@ == ops.out@,
            size == input.size,
            g0 == input.grid(),
            is_square(g0, size as int),
            all_fit(size as int, ops@),
            grid_of(current) == replayed(g0, ops@.take(t as int)),
            boards@.len() == t,
            forall|s: int|
                0 <= s < t ==> {
                    &&& (#[trigger] boards@[s]).size == size
                    &&& boards@[s].grid() == replayed(g0, ops@.take(s + 1))
                },
        decreases ops@.len() - t,
    {
        proof {
            lemma_replayed_square(g0, size as int, ops@.take(t as int));
            assert(ops@.take(t + 1).drop_last() =~= ops@.take(t as int));
            assert(ops@.take(t + 1).last() == ops@[t as int]);
        }
        let next = rotate(&current, size, ops.out[t]);
        let snapshot = copy_rows(&next);
        boards.push(Input { size, board: snapshot });
        current = next;
        t += 1;
    }
    Ok(boards)
}

} // verus!
