//! Choosing uniformly among the open columns, given a random number.
use vstd::prelude::*;
use crate::game::{Board, COLUMN_COUNT, column_full, has_move};

verus! {

/// The columns below `n` that can take a disc, left to right.
pub open spec fn open_columns(g: Seq<Seq<crate::game::Disc>>, n: int) -> Seq<u8>
    decreases n,
{
    if n <= 0 {
        Seq::empty()
    } else if column_full(g, n - 1) {
        open_columns(g, n - 1)
    } else {
        open_columns(g, n - 1).push((n - 1) as u8)
    }
}

/// A player that drops its disc into a random open column.
pub struct RandomPlayer;

impl RandomPlayer {
    pub fn new() -> Self {
        RandomPlayer
    }

    /// The open column at position `roll` modulo their count, counting open
    /// columns from the left.
    pub fn pick_move(&self, board: &Board, roll: u32) -> (r: u8)
        requires
            board.wf(),
            has_move(board@),
        ensures
            open_columns(board@, COLUMN_COUNT as int).len() > 0,
            r == open_columns(board@, COLUMN_COUNT as int)[(roll as int) % open_columns(
                board@,
                COLUMN_COUNT as int,
            ).len() as int],
            !column_full(board@, r as int),
    {
        let ghost g = board@;
        let mut options: Vec<u8> = Vec::new();
        let mut col: u8 = 0;
        while col < COLUMN_COUNT as u8
            invariant
                board.wf(),
                g == board@,
                col <= COLUMN_COUNT,
                options@ == open_columns(g, col as int),
                forall|i: int| 0 <= i < options.len() ==> !column_full(g, #[trigger] options@[i] as int),
                (exists|k: int| 0 <= k < col && !#[trigger] column_full(g, k)) ==> options.len() > 0,
            decreases COLUMN_COUNT - col,
        {
            if !board.is_column_full(col) {
                options.push(col);
            } else {
                proof {
                    assert forall|k: int| 0 <= k < col + 1 && !#[trigger] column_full(g, k)
                        implies k < col by {}
                }
            }
            col += 1;
        }
        let idx = roll as usize % options.len();
        options[idx]
    }
}

} // verus!
