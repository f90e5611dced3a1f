//! A single-player grid puzzle: a square board holds every tile value twice,
//! and a move turns a square block of the board a quarter turn clockwise.
//!
//! The crate makes boards from a seed, reads and validates a list of moves,
//! replays the moves, scores the board they lead to, and draws it. The
//! functions of this file work on text, for a host that holds no values of
//! the crate's types; the modules hold the parts.

pub mod board;
pub mod generate;
pub mod laws;
pub mod minmax;
pub mod paired;
pub mod parse;
pub mod render;
pub mod replay;
pub mod roundtrip;
pub mod score;
pub mod tally;
pub mod text;
pub mod turn;

use crate::board::{board_text, Op};
use crate::generate::{generated_grid, generated_size, lemma_generated_grid};
use crate::parse::{fault_text, input_spec, lemma_ops_spec_bounds, output_spec, parse_input};
use crate::parse::{count_spec, parse_output};
use crate::render::{drawable, picture, scene_spec, MARGIN, UNIT};
use crate::replay::{all_fit, replayed};
use crate::score::{adjacent_matches, out_of_range_text, score_fits};
use crate::text::tokens;
use crate::turn::moves_before;
use vstd::prelude::*;

pub use crate::minmax::SetMinMax;

verus! {

/// What the host gets for a turn: the score, the error message, and the
/// text of the picture.
#[derive(Clone, Debug, PartialEq, Eq)]
pub struct Ret {
    pub score: i64,
    pub err: String,
    pub svg: String,
}

/// The seed that a host's number stands for: the number itself, or, for a
/// negative number, the value of its bits read as 64 bits without sign.
pub open spec fn seed_of(seed: i32) -> u64 {
    if seed >= 0 {
        seed as u64
    } else {
        (0x1_0000_0000_0000_0000 + seed) as u64
    }
}

/// The message for a board too large to be scored and drawn.
pub open spec fn too_large_text() -> Seq<char> {
    "Board too large"@
}

/// A board of side `size` can be scored and drawn.
pub open spec fn in_limits(size: int) -> bool {
    score_fits(size) && drawable(size)
}

/// Whether a board of side `size` can be scored and drawn.
pub fn within_limits(size: usize) -> (b: bool)
    ensures
        b == in_limits(size as int),
{
    let can_draw = size <= (usize::MAX - 2 * MARGIN) / UNIT;
    let can_score = size <= 2147483647;
    proof {
        let s = size as int;
        if s <= 2147483647 {
            assert(2 * s * s <= i64::MAX) by (nonlinear_arith)
                requires
                    0 <= s <= 2147483647,
            ;
        } else {
            assert(2 * s * s > i64::MAX) by (nonlinear_arith)
                requires
                    s >= 2147483648,
            ;
        }
    }
    can_draw && can_score
}

/// Makes the board of a seed and writes it as text.
pub fn gen(seed: i32) -> (r: String)
    ensures
        r@ == board_text(
            generated_size(seed_of(seed)) as usize,
            generated_grid(seed_of(seed)),
        ),
{
    let s: u64 = if seed >= 0 {
        seed as u64
    } else {
        u64::MAX - ((-(seed as i64) - 1) as u64)
    };
    assert(s == seed_of(seed));
    let b = generate::gen(s);
    proof {
        lemma_generated_grid(s, b);
    }
    b.to_text()
}

/// The number of turns that a list of moves gives on a board, both as text:
/// the number of its moves, or 0 where the board or the list cannot be read.
pub open spec fn turns_spec(input: Seq<char>, output: Seq<char>) -> nat {
    match input_spec(input) {
        Err(_) => 0,
        Ok((size, _)) => match output_spec(size as int, output) {
            Err(_) => 0,
            Ok(ops) => ops.len(),
        },
    }
}

/// The number of turns that can be shown: the number of moves of the list.
/// Where the board or the list cannot be read there is none.
pub fn get_max_turn(input: String, output: String) -> (r: usize)
    ensures
        r == turns_spec(input@, output@),
{
    match parse_input(input.as_str()) {
        Err(_) => 0,
        Ok(b) => match parse_output(&b, output.as_str()) {
            Err(_) => 0,
            Ok(moves) => moves.out.len(),
        },
    }
}

/// The moves to show at a turn: those made before it, and all of them where
/// the turn lies past the list.
pub open spec fn shown_moves(ops: Seq<Op>, turn: int) -> Seq<Op> {
    if turn <= ops.len() {
        moves_before(ops, turn)
    } else {
        ops
    }
}

/// Reads a board and a list of moves from text, replays the moves made
/// before `turn`, scores the board they lead to and draws it.
///
/// Where the board or the list cannot be read, or the board is too large to
/// be scored and drawn, the score is 0, the message says why, and there is
/// no picture. Where a move to replay does not fit the board, the score is 0,
/// the message says so, and the picture shows the board reached before it.
pub fn vis(input: String, output: String, turn: usize) -> (r: Ret)
    ensures
        match input_spec(input@) {
            Err(f) => r.score == 0 && r.err@ == fault_text(f) && r.svg@.len() == 0,
            Ok((size, g)) => if !in_limits(size as int) {
                r.score == 0 && r.err@ == too_large_text() && r.svg@.len() == 0
            } else {
                match output_spec(size as int, output@) {
                    Err(f) => r.score == 0 && r.err@ == fault_text(f) && r.svg@.len() == 0,
                    Ok(ops) => {
                        &&& r.svg@ == picture(scene_spec(g, shown_moves(ops, turn as int), true))
                        &&& if all_fit(size as int, shown_moves(ops, turn as int)) {
                            &&& r.score == adjacent_matches(
                                replayed(g, shown_moves(ops, turn as int)),
                            )
                            &&& r.err@.len() == 0
                        } else {
                            &&& r.score == 0
                            &&& r.err@ == out_of_range_text()
                        }
                    },
                }
            },
        },
{
    let b = match parse_input(input.as_str()) {
        Ok(b) => b,
        Err(e) => {
            return Ret { score: 0, err: e.message(), svg: String::new() };
        },
    };
    if !within_limits(b.size) {
        return Ret { score: 0, err: "Board too large".to_owned(), svg: String::new() };
    }
    let moves = match parse_output(&b, output.as_str()) {
        Ok(moves) => moves,
        Err(e) => {
            return Ret { score: 0, err: e.message(), svg: String::new() };
        },
    };
    let shown = if turn <= moves.out.len() {
        turn
    } else {
        moves.out.len()
    };
    proof {
        let toks = tokens(output@);
        let count = count_spec(toks)->Ok_0;
        lemma_ops_spec_bounds(b.size as int, toks, count as nat);
        assert(moves@.take(moves@.len() as int) =~= moves@);
        assert(moves_before(moves@, shown as int) =~= shown_moves(moves@, turn as int));
    }
    let (score, err, svg) = turn::vis(&b, &moves, shown);
    Ret { score, err, svg }
}

} // verus!
