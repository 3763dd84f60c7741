//! Game engine: shape recognition, position evaluation, search.
use vstd::prelude::*;
use crate::board::{Board, Color, Pos};
use crate::engine::alphabeta::{candidates_spec, empties_spec, center};

pub mod shape;
pub mod evaluate;
pub mod alphabeta;

verus! {

/// The move an engine falls back on when no candidate is left: the first empty
/// intersection, column by column, or the centre on a full board.
pub open spec fn fallback_move(h: Seq<(Pos, Color)>) -> Pos {
    if empties_spec(h).len() > 0 {
        empties_spec(h)[0]
    } else {
        center()
    }
}

/// What an engine may answer: the centre on an empty board, otherwise one of the
/// candidates (empty intersections next to the stones), or the fallback when there are
/// none.
pub open spec fn move_ok(h: Seq<(Pos, Color)>, r: Pos) -> bool {
    &&& h.len() == 0 ==> r == center()
    &&& h.len() > 0 && candidates_spec(h).len() > 0 ==> candidates_spec(h).contains(r)
    &&& h.len() > 0 && candidates_spec(h).len() == 0 ==> r == fallback_move(h)
}

/// A move-choosing engine, so another search can be swapped in.
pub trait Engine: Send {
    fn best_move(&mut self, board: &Board, side: Color, time_budget_ms: u64) -> (r: Pos)
        requires
            board.wf(),
        ensures
            move_ok(board@, r),
    ;

    fn name(&self) -> &str;
}

} // verus!
