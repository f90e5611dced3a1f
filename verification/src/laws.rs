//! Laws of the quarter turn.

use crate::board::{is_square, Op};
use crate::generate::is_paired;
use crate::render::{picture, scene_spec, SceneView};
use crate::replay::{all_fit, in_block, lemma_replayed_square, op_fits, replayed, rotated};
use crate::tally::{cells, flat_map, lemma_cell_map_permutation, lemma_flat_index};
use crate::tally::{lemma_flat_split, lemma_reindexed_multiset, tally};
use vstd::prelude::*;

verus! {

/// Four quarter turns of one block bring every cell back to where it was.
pub proof fn lemma_four_turns_restore(g: Seq<Seq<usize>>, size: int, op: Op)
    requires
        is_square(g, size),
        op_fits(size, op),
    ensures
        rotated(rotated(rotated(rotated(g, op), op), op), op) == g,
{
    let g1 = rotated(g, op);
    let g2 = rotated(g1, op);
    let g3 = rotated(g2, op);
    let g4 = rotated(g3, op);
    assert(g4.len() == g.len());
    assert forall|r: int| 0 <= r < g.len() implies g4[r] == g[r] by {
        assert(g4[r].len() == g[r].len());
        assert forall|c: int| 0 <= c < g[r].len() implies g4[r][c] == g[r][c] by {
            if in_block(op, r, c) {
                let x = op.0 as int;
                let y = op.1 as int;
                let n = op.2 as int;
                let i = r - x;
                let j = c - y;
                // the cell that lands on (r, c) at each turn
                let (r3, c3) = (x + n - 1 - j, y + i);
                let (r2, c2) = (x + n - 1 - i, y + n - 1 - j);
                let (r1, c1) = (x + j, y + n - 1 - i);
                assert(in_block(op, r3, c3));
                assert(in_block(op, r2, c2));
                assert(in_block(op, r1, c1));
                assert(g4[r][c] == g3[r3][c3]);
                assert(g3[r3][c3] == g2[r2][c2]);
                assert(g2[r2][c2] == g1[r1][c1]);
                assert(g1[r1][c1] == g[r][c]);
            }
        }
        assert(g4[r] =~= g[r]);
    }
    assert(g4 =~= g);
}

/// The cell whose value a quarter turn of the block of `op` brings to `(r, c)`.
pub open spec fn source_cell(op: Op, r: int, c: int) -> (int, int) {
    if in_block(op, r, c) {
        (op.0 + op.2 - 1 - (c - op.1), op.1 + (r - op.0))
    } else {
        (r, c)
    }
}

/// The values of the block of `op`, row by row.
pub open spec fn block_values(g: Seq<Seq<usize>>, op: Op) -> Seq<usize> {
    Seq::new(
        (op.2 * op.2) as nat,
        |k: int| g[op.0 + k / (op.2 as int)][op.1 + k % (op.2 as int)],
    )
}

/// A quarter turn moves the values of the board about and changes none: the
/// board holds the same values as before, each as often as before.
pub proof fn lemma_turn_keeps_tally(g: Seq<Seq<usize>>, size: int, op: Op)
    requires
        is_square(g, size),
        op_fits(size, op),
    ensures
        tally(rotated(g, op)) == tally(g),
{
    let f = |r: int, c: int| source_cell(op, r, c);
    assert forall|r: int, c: int| 0 <= r < size && 0 <= c < size implies 0 <= (#[trigger] f(
        r,
        c,
    )).0 < size && 0 <= f(r, c).1 < size by {}
    assert forall|r1: int, c1: int, r2: int, c2: int|
        0 <= r1 < size && 0 <= c1 < size && 0 <= r2 < size && 0 <= c2 < size && #[trigger] f(
            r1,
            c1,
        ) == #[trigger] f(r2, c2) implies r1 == r2 && c1 == c2 by {
        assert(in_block(op, f(r1, c1).0, f(r1, c1).1) == in_block(op, r1, c1));
        assert(in_block(op, f(r2, c2).0, f(r2, c2).1) == in_block(op, r2, c2));
    }
    lemma_cell_map_permutation(size, f);
    let p = flat_map(size, f);
    let s = cells(g);
    let t = cells(rotated(g, op));
    assert(rotated(g, op).len() == size);
    assert forall|k: int| 0 <= k < t.len() implies t[k] == s[#[trigger] p[k]] by {
        lemma_flat_split(size, k);
        let (r, c) = f(k / size, k % size);
        lemma_flat_index(size, r, c);
    }
    lemma_reindexed_multiset(s, t, p);
}

/// A quarter turn keeps the values within the block that it turns, each as
/// often as before.
pub proof fn lemma_turn_keeps_block_tally(g: Seq<Seq<usize>>, size: int, op: Op)
    requires
        is_square(g, size),
        op_fits(size, op),
    ensures
        block_values(rotated(g, op), op).to_multiset() == block_values(g, op).to_multiset(),
{
    let n = op.2 as int;
    let f = |a: int, b: int| (n - 1 - b, a);
    assert forall|r1: int, c1: int, r2: int, c2: int|
        0 <= r1 < n && 0 <= c1 < n && 0 <= r2 < n && 0 <= c2 < n && #[trigger] f(r1, c1)
            == #[trigger] f(r2, c2) implies r1 == r2 && c1 == c2 by {}
    lemma_cell_map_permutation(n, f);
    let p = flat_map(n, f);
    let s = block_values(g, op);
    let t = block_values(rotated(g, op), op);
    assert forall|k: int| 0 <= k < t.len() implies t[k] == s[#[trigger] p[k]] by {
        lemma_flat_split(n, k);
        let a = k / n;
        let b = k % n;
        lemma_flat_index(n, n - 1 - b, a);
        assert(in_block(op, op.0 + a, op.1 + b));
    }
    lemma_reindexed_multiset(s, t, p);
}

/// Replaying moves that fit keeps the values of the board, each as often as
/// before.
pub proof fn lemma_replay_keeps_tally(g: Seq<Seq<usize>>, size: int, ops: Seq<Op>)
    requires
        is_square(g, size),
        all_fit(size, ops),
    ensures
        tally(replayed(g, ops)) == tally(g),
    decreases ops.len(),
{
    if ops.len() > 0 {
        lemma_replay_keeps_tally(g, size, ops.drop_last());
        lemma_replayed_square(g, size, ops.drop_last());
        lemma_turn_keeps_tally(replayed(g, ops.drop_last()), size, ops.last());
    }
}

/// Replaying moves that fit on a board that holds every value twice leaves
/// a board that holds every value twice.
pub proof fn lemma_replay_keeps_pairing(g: Seq<Seq<usize>>, size: int, ops: Seq<Op>)
    requires
        is_square(g, size),
        all_fit(size, ops),
        is_paired(g),
    ensures
        is_paired(replayed(g, ops)),
{
    lemma_replay_keeps_tally(g, size, ops);
    lemma_replayed_square(g, size, ops);
}

/// What is drawn depends on the board, on the moves and on whether values
/// are shown, and on nothing else: two scenes of the same board after the
/// same moves are the same scene, cell by cell, mark by mark, frame and all.
pub proof fn lemma_scene_is_determined(
    g: Seq<Seq<usize>>,
    ops: Seq<Op>,
    show_number: bool,
    a: SceneView,
    b: SceneView,
)
    requires
        a == scene_spec(g, ops, show_number),
        b == scene_spec(g, ops, show_number),
    ensures
        a == b,
{
}

/// The picture depends on the board, on the moves and on whether values are
/// shown, and on nothing else: two pictures of the same board after the same
/// moves are the same text.
pub proof fn lemma_picture_is_determined(
    g: Seq<Seq<usize>>,
    ops: Seq<Op>,
    show_number: bool,
    a: Seq<char>,
    b: Seq<char>,
)
    requires
        a == picture(scene_spec(g, ops, show_number)),
        b == picture(scene_spec(g, ops, show_number)),
    ensures
        a == b,
{
}

} // verus!
