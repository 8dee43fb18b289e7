//! Depth-limited negamax search with score-window pruning.
use vstd::prelude::*;
use crate::game::{
    Board, Disc, Grid, WinState, COLUMN_COUNT, column_full, dropped, estimate, grid_wf, has_move,
    outcome,
};

verus! {

/// The largest score: even, so that `MAX_SCORE - AVG_SCORE == AVG_SCORE`.
pub const MAX_SCORE: u32 = 4294967294;

/// The neutral score, exactly half of `MAX_SCORE`.
pub const AVG_SCORE: u32 = 2147483647;

/// The column reported when no move was searched.
pub const NO_COLUMN: u8 = 255;

/// The midpoint of the score range reflects onto itself, which lets a drawn
/// position score the same from either side.
pub proof fn lemma_score_midpoint()
    ensures
        MAX_SCORE - AVG_SCORE == AVG_SCORE,
        AVG_SCORE + AVG_SCORE == MAX_SCORE,
{
}

/// The outcome of a search: the score of the position for the mover, the column
/// chosen, and how many positions were visited (the count saturates at `u32::MAX`).
#[derive(Debug, Copy, Clone, PartialEq, Eq, Structural)]
pub struct MinimaxResult {
    pub score: u32,
    pub column: u8,
    pub steps: u32,
}

/// The result of searching `g` for `disc`, with window `alpha..beta` and
/// `patience` plies left.
pub open spec fn search(g: Grid, disc: Disc, alpha: u32, beta: u32, patience: nat) -> MinimaxResult
    decreases patience, COLUMN_COUNT + 1,
{
    if patience == 0 {
        MinimaxResult { score: estimate(g, disc), column: NO_COLUMN, steps: 1 }
    } else {
        search_from(
            g,
            disc,
            alpha,
            beta,
            patience,
            0,
            MinimaxResult { score: 0, column: NO_COLUMN, steps: 1 },
        )
    }
}

/// The score of dropping `disc` into the open column `c` of `g`, from the mover's
/// side, and the node count `steps` grown by what that took. It is only asked for
/// with `patience > 0`; the other branch just keeps the definition total.
pub open spec fn move_value(
    g: Grid,
    disc: Disc,
    alpha: u32,
    beta: u32,
    patience: nat,
    c: int,
    steps: u32,
) -> (u32, u32)
    decreases patience, 0int,
{
    let next = dropped(g, c, disc);
    match outcome(next, c, g[c].len() as int, disc) {
        WinState::PlayerWon(_) => (MAX_SCORE, steps),
        WinState::Draw => (AVG_SCORE, steps),
        WinState::Ongoing => {
            if patience > 0 {
                let reply = search(
                    next,
                    disc.spec_opposite(),
                    (MAX_SCORE - beta) as u32,
                    (MAX_SCORE - alpha) as u32,
                    (patience - 1) as nat,
                );
                ((MAX_SCORE - reply.score) as u32, steps.saturating_add(reply.steps))
            } else {
                (AVG_SCORE, steps)
            }
        },
    }
}

/// The search over columns `c` and up, `best` holding what the columns below gave.
/// A column whose score reaches the best so far replaces it, so ties go to the
/// higher column; a score above `beta` ends the search there.
pub open spec fn search_from(
    g: Grid,
    disc: Disc,
    alpha: u32,
    beta: u32,
    patience: nat,
    c: int,
    best: MinimaxResult,
) -> MinimaxResult
    decreases patience, COLUMN_COUNT - c,
{
    if c >= COLUMN_COUNT || c < 0 {
        best
    } else if column_full(g, c) {
        search_from(g, disc, alpha, beta, patience, c + 1, best)
    } else {
        let (score, steps) = move_value(g, disc, alpha, beta, patience, c, best.steps);
        if score >= best.score {
            let chosen = MinimaxResult { score, column: c as u8, steps };
            if score > beta {
                chosen
            } else {
                search_from(
                    g,
                    disc,
                    if score > alpha { score } else { alpha },
                    beta,
                    patience,
                    c + 1,
                    chosen,
                )
            }
        } else {
            search_from(
                g,
                disc,
                alpha,
                beta,
                patience,
                c + 1,
                MinimaxResult { steps, ..best },
            )
        }
    }
}

/// Searches `patience` plies deep for the best move of `disc` on `board`.
/// With no patience left the board's heuristic value is returned, with
/// `NO_COLUMN` and one step; otherwise the chosen column is one that is open.
pub fn minimax(board: &Board, disc: Disc, alpha: u32, beta: u32, patience: u32) -> (r:
    MinimaxResult)
    requires
        board.wf(),
        patience > 0 ==> has_move(board@),
        alpha <= MAX_SCORE,
        beta <= MAX_SCORE,
    ensures
        r == search(board@, disc, alpha, beta, patience as nat),
        r.score <= MAX_SCORE,
        patience == 0 ==> r.score == estimate(board@, disc) && r.column == NO_COLUMN && r.steps
            == 1,
        patience > 0 ==> !column_full(board@, r.column as int),
    decreases patience,
{
    if patience == 0 {
        return MinimaxResult { score: board.estimate_score(disc), column: NO_COLUMN, steps: 1 };
    }
    let ghost g = board@;
    let ghost alpha0 = alpha;
    proof {
        board.lemma_view_wf();
    }
    let mut low = alpha;
    let mut best = MinimaxResult { score: 0, column: NO_COLUMN, steps: 1 };
    let mut column: u8 = 0;
    while column < COLUMN_COUNT as u8
        invariant
            board.wf(),
            g == board@,
            alpha0 == alpha,
            grid_wf(g),
            has_move(g),
            patience > 0,
            column <= COLUMN_COUNT,
            low <= MAX_SCORE,
            beta <= MAX_SCORE,
            best.score <= MAX_SCORE,
            best.column == NO_COLUMN || !column_full(g, best.column as int),
            best.column == NO_COLUMN ==> best.score == 0,
            (exists|k: int| 0 <= k < column && !#[trigger] column_full(g, k)) ==> best.column
                != NO_COLUMN,
            search_from(g, disc, low, beta, patience as nat, column as int, best) == search(
                g,
                disc,
                alpha0,
                beta,
                patience as nat,
            ),
        decreases COLUMN_COUNT - column,
    {
        let mut next_board = *board;
        let win_state = match next_board.drop_disc(column, disc) {
            Some(ws) => ws,
            None => {
                proof {
                    assert(column_full(g, column as int));
                    assert forall|k: int| 0 <= k < column + 1 && !#[trigger] column_full(g, k)
                        implies k < column by {}
                }
                column += 1;
                continue ;
            },
        };
        let ghost old_steps = best.steps;
        let ghost old_best = best;
        let score = match win_state {
            WinState::PlayerWon(_) => MAX_SCORE,
            WinState::Draw => AVG_SCORE,
            WinState::Ongoing => {
                let opponent = minimax(
                    &next_board,
                    disc.opposite(),
                    MAX_SCORE - beta,
                    MAX_SCORE - low,
                    patience - 1,
                );
                best.steps = best.steps.saturating_add(opponent.steps);
                MAX_SCORE - opponent.score
            },
        };
        proof {
            assert(next_board@ == dropped(g, column as int, disc));
            let mv = move_value(g, disc, low, beta, patience as nat, column as int, old_steps);
            assert(mv.0 == score);
            assert(mv.1 == best.steps);
        }
        if score >= best.score {
            best = MinimaxResult { score, column, steps: best.steps };
            if score > beta {
                assert(search_from(g, disc, low, beta, patience as nat, column as int, old_best)
                    == best);
                assert(search(g, disc, alpha0, beta, patience as nat) == best);
                return best;
            }
            if score > low {
                low = score;
            }
        }
        column += 1;
    }
    best
}

/// A player that picks its moves by searching `ply` plies deep.
pub struct MinimaxPlayer {
    pub ply: u32,
}

impl MinimaxPlayer {
    pub fn new(ply: u32) -> (r: Self)
        ensures
            r.ply == ply,
    {
        MinimaxPlayer { ply }
    }

    /// Searches from the top, with the full score window and this player's depth.
    pub fn best_move(&self, board: &Board, disc: Disc) -> (r: MinimaxResult)
        requires
            board.wf(),
            has_move(board@),
        ensures
            r == search(board@, disc, 0, MAX_SCORE, self.ply as nat),
            r.score <= MAX_SCORE,
            self.ply > 0 ==> !column_full(board@, r.column as int),
    {
        minimax(board, disc, 0, MAX_SCORE, self.ply)
    }
}

} // verus!
