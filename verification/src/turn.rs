//! The board at a turn: the state after the first moves of a list.

use crate::board::{Input, Op, Output};
use crate::render::{drawable, frame_drawable, frame_of, picture, scene_spec};
use crate::replay::{all_fit, replayed};
use crate::score::{adjacent_matches, out_of_range_text, score_fits};
use vstd::prelude::*;
use vstd::slice::slice_subrange;

verus! {

/// The moves made before turn `turn`.
pub open spec fn moves_before(ops: Seq<Op>, turn: int) -> Seq<Op> {
    ops.take(turn)
}

/// Replays the first `turn` moves of a list, scores the board they lead to
/// and draws it with the last of them framed and the value shown in every
/// cell. The result is the score, the error message and the text of the
/// picture; where the message is not empty the score is 0.
pub fn vis(input: &Input, output: &Output, turn: usize) -> (r: (i64, String, String))
    requires
        input.wf(),
        all_fit(input.size as int, moves_before(output@, turn as int)) ==> score_fits(
            input.size as int,
        ),
        drawable(input.size as int),
        turn <= output@.len(),
        frame_drawable(frame_of(moves_before(output@, turn as int))),
    ensures
        all_fit(input.size as int, moves_before(output@, turn as int)) ==> {
            &&& r.0 == adjacent_matches(
                replayed(input.grid(), moves_before(output@, turn as int)),
            )
            &&& r.1@.len() == 0
        },
        !all_fit(input.size as int, moves_before(output@, turn as int)) ==> {
            &&& r.0 == 0
            &&& r.1@ == out_of_range_text()
        },
        r.2@ == picture(scene_spec(input.grid(), moves_before(output@, turn as int), true)),
{
    let made = slice_subrange(output.out.as_slice(), 0, turn);
    crate::render::vis(input, made, true)
}

} // verus!
