//! A two-player connect-four engine: the board with move application and
//! win detection, a positional heuristic, and a depth-limited negamax search.
pub mod game;
pub mod minimax;
pub mod random;

pub use game::{Board, Disc, WinState, COLUMN_COUNT, ROW_COUNT};
pub use minimax::{minimax, MinimaxPlayer, MinimaxResult, AVG_SCORE, MAX_SCORE, NO_COLUMN};
pub use random::RandomPlayer;
