//! The board: stacks of discs in a fixed grid, move application and
//! detection of four in a row.
use vstd::prelude::*;

verus! {

pub const COLUMN_COUNT: usize = 7;
pub const ROW_COUNT: usize = 6;

#[derive(Debug, Copy, Clone, PartialEq, Eq, Structural)]
pub enum Disc {
    Red,
    Blue,
}

impl Disc {
    pub open spec fn spec_opposite(self) -> Disc {
        match self {
            Disc::Red => Disc::Blue,
            Disc::Blue => Disc::Red,
        }
    }

    /// The other player's disc.
    pub fn opposite(self) -> (r: Self)
        ensures
            r == self.spec_opposite(),
            r != self,
            r.spec_opposite() == self,
    {
        match self {
            Disc::Red => Disc::Blue,
            Disc::Blue => Disc::Red,
        }
    }
}

/// What a move led to.
#[derive(Debug, Copy, Clone, PartialEq, Eq, Structural)]
pub enum WinState {
    /// Player won by placing Disc.
    PlayerWon(Disc),
    /// Neither player has won yet, and there is room left.
    Ongoing,
    /// Ran out of places to put the discs.
    Draw,
}

/// The abstract board: one stack of discs per column, bottom first.
pub type Grid = Seq<Seq<Disc>>;

/// Seven columns, each holding at most six discs.
pub open spec fn grid_wf(g: Grid) -> bool {
    &&& g.len() == COLUMN_COUNT
    &&& forall|c: int| 0 <= c < COLUMN_COUNT ==> #[trigger] g[c].len() <= ROW_COUNT
}

/// The disc at (column, row), or `None` when the cell is empty or off the board.
pub open spec fn cell_of(g: Grid, c: int, r: int) -> Option<Disc> {
    if 0 <= c < g.len() && 0 <= r < g[c].len() {
        Some(g[c][r])
    } else {
        None
    }
}

/// A column that cannot take a disc: off the board, or holding `ROW_COUNT` discs.
pub open spec fn column_full(g: Grid, c: int) -> bool {
    c < 0 || c >= COLUMN_COUNT || g[c].len() >= ROW_COUNT
}

pub open spec fn all_full(g: Grid) -> bool {
    forall|c: int| 0 <= c < COLUMN_COUNT ==> #[trigger] column_full(g, c)
}

/// Some column can still take a disc.
pub open spec fn has_move(g: Grid) -> bool {
    exists|c: int| 0 <= c < COLUMN_COUNT && !#[trigger] column_full(g, c)
}

/// The grid after `d` is dropped into column `c`.
pub open spec fn dropped(g: Grid, c: int, d: Disc) -> Grid {
    g.update(c, g[c].push(d))
}

/// The cell `j` steps from (c, r) along the direction (dx, dy).
pub open spec fn line_cell(g: Grid, c: int, r: int, dx: int, dy: int, j: int) -> Option<Disc> {
    cell_of(g, c + j * dx, r + j * dy)
}

/// The four cells from `k` steps behind (c, r) to `3 - k` steps ahead along (dx, dy)
/// all hold `d`.
pub open spec fn window_holds(g: Grid, c: int, r: int, dx: int, dy: int, d: Disc, k: int) -> bool {
    forall|j: int| -k <= j <= 3 - k ==> #[trigger] line_cell(g, c, r, dx, dy, j) == Some(d)
}

/// Four consecutive cells along (dx, dy), one of them (c, r), all hold `d`.
pub open spec fn four_along(g: Grid, c: int, r: int, dx: int, dy: int, d: Disc) -> bool {
    exists|k: int| 0 <= k <= 3 && #[trigger] window_holds(g, c, r, dx, dy, d, k)
}

/// Four in a row of `d` through (c, r): horizontal, vertical or either diagonal.
pub open spec fn four_at(g: Grid, c: int, r: int, d: Disc) -> bool {
    ||| four_along(g, c, r, 1, 0, d)
    ||| four_along(g, c, r, 0, 1, d)
    ||| four_along(g, c, r, 1, 1, d)
    ||| four_along(g, c, r, 1, -1, d)
}

/// The state of a game after `d` was placed at (c, r) of `g`.
pub open spec fn outcome(g: Grid, c: int, r: int, d: Disc) -> WinState {
    if four_at(g, c, r, d) {
        WinState::PlayerWon(d)
    } else if all_full(g) {
        WinState::Draw
    } else {
        WinState::Ongoing
    }
}

/// The weight of a streak of `len` cells.
pub open spec fn streak_weight(len: int) -> u32 {
    if len == 3 {
        8
    } else if len == 2 {
        4
    } else if len == 1 {
        1
    } else {
        0
    }
}

/// `score` with a streak of `len` cells counted for (`positive`) or against the scorer,
/// saturating at the bounds of `u32`.
pub open spec fn apply_streak(score: u32, len: int, positive: bool) -> u32 {
    if positive {
        score.saturating_add(streak_weight(len))
    } else {
        score.saturating_sub(streak_weight(len))
    }
}

/// The directions along which lines are scanned: right, up, up-right, up-left.
pub open spec fn scan_direction(dx: int, dy: int) -> bool {
    ||| dx == 1 && dy == 0
    ||| dx == 0 && dy == 1
    ||| dx == 1 && dy == 1
    ||| dx == -1 && dy == 1
}

pub open spec fn scan_measure(c: int, r: int, dx: int, dy: int) -> int {
    if dy == 1 {
        ROW_COUNT - r
    } else {
        COLUMN_COUNT - c
    }
}

/// The score after scanning the line from (c, r) to the edge of the board along
/// (dx, dy), for `disc`. The scan carries the current streak (`len` cells of
/// `held`; a streak is a maximal run of one disc), whether the cell before it is
/// empty (`open`; the edge of the board is closed), and the running score.
///
/// A streak is counted, for `disc` or against it, when either of the cells at its
/// two ends is empty.
pub open spec fn scan_line(
    g: Grid,
    disc: Disc,
    c: int,
    r: int,
    dx: int,
    dy: int,
    len: int,
    open: bool,
    held: Option<Disc>,
    score: u32,
) -> u32
    decreases scan_measure(c, r, dx, dy),
    when scan_direction(dx, dy)
{
    let cell = cell_of(g, c, r);
    let extends = cell is Some && len > 0 && cell == held;
    let ends = len > 0 && !extends;
    let score1 = if ends && (open || cell is None) {
        apply_streak(score, len, held == Some(disc))
    } else {
        score
    };
    let len1 = if extends {
        len + 1
    } else if cell is Some {
        1
    } else {
        0
    };
    let open1 = if cell is None {
        true
    } else if ends {
        false
    } else {
        open
    };
    let held1 = if cell is Some {
        cell
    } else {
        held
    };
    let nc = c + dx;
    let nr = r + dy;
    if nc < 0 || nc >= COLUMN_COUNT || nr < 0 || nr >= ROW_COUNT {
        if len1 > 0 && open1 {
            apply_streak(score1, len1, held1 == Some(disc))
        } else {
            score1
        }
    } else {
        scan_line(g, disc, nc, nr, dx, dy, len1, open1, held1, score1)
    }
}

/// A fresh scan of the line starting at (c, r).
pub open spec fn line_score(g: Grid, disc: Disc, c: int, r: int, dx: int, dy: int, score: u32) -> u32 {
    scan_line(g, disc, c, r, dx, dy, 0, false, None, score)
}

/// The lines that start on row `r` and above it: each row rightwards, the
/// up-right diagonal from its left end, and (but for the bottom row) the up-left
/// diagonal from its right end.
pub open spec fn rows_score(g: Grid, disc: Disc, score: u32, r: int) -> u32
    decreases ROW_COUNT - r,
{
    if r >= ROW_COUNT || r < 0 {
        score
    } else {
        let s1 = line_score(g, disc, 0, r, 1, 0, score);
        let s2 = line_score(g, disc, 0, r, 1, 1, s1);
        let s3 = if r != 0 {
            line_score(g, disc, COLUMN_COUNT - 1, r, -1, 1, s2)
        } else {
            s2
        };
        rows_score(g, disc, s3, r + 1)
    }
}

/// The lines that start on the bottom row at column `c` and right of it: each
/// column upwards and (but for the leftmost) both diagonals.
pub open spec fn columns_score(g: Grid, disc: Disc, score: u32, c: int) -> u32
    decreases COLUMN_COUNT - c,
{
    if c >= COLUMN_COUNT || c < 0 {
        score
    } else {
        let s1 = line_score(g, disc, c, 0, 0, 1, score);
        let s3 = if c != 0 {
            let s2 = line_score(g, disc, c, 0, 1, 1, s1);
            line_score(g, disc, c, 0, -1, 1, s2)
        } else {
            s1
        };
        columns_score(g, disc, s3, c + 1)
    }
}

/// Keeps a heuristic score off the values kept for decided games.
pub open spec fn clamp_score(score: u32) -> u32 {
    if score == 0 {
        1
    } else if score >= crate::minimax::MAX_SCORE {
        (crate::minimax::MAX_SCORE - 1) as u32
    } else {
        score
    }
}

/// The heuristic value of `g` for `disc`.
pub open spec fn estimate(g: Grid, disc: Disc) -> u32 {
    clamp_score(columns_score(g, disc, rows_score(g, disc, crate::minimax::AVG_SCORE, 0), 0))
}

/// The grid after each move of `moves` in turn, a move into a column that
/// cannot take a disc leaving the grid as it is.
pub open spec fn apply_moves(g: Grid, moves: Seq<(int, Disc)>) -> Grid
    decreases moves.len(),
{
    if moves.len() == 0 {
        g
    } else {
        let (c, d) = moves[0];
        let next = if column_full(g, c) {
            g
        } else {
            dropped(g, c, d)
        };
        apply_moves(next, moves.drop_first())
    }
}

/// Whatever moves are made, no column holds more than `ROW_COUNT` discs, and a
/// column on the board is full exactly when it holds `ROW_COUNT`.
pub proof fn lemma_moves_keep_columns_bounded(g: Grid, moves: Seq<(int, Disc)>)
    requires
        grid_wf(g),
    ensures
        grid_wf(apply_moves(g, moves)),
        forall|c: int|
            0 <= c < COLUMN_COUNT ==> (#[trigger] column_full(apply_moves(g, moves), c) <==> apply_moves(
                g,
                moves,
            )[c].len() == ROW_COUNT),
    decreases moves.len(),
{
    if moves.len() > 0 {
        let (c, d) = moves[0];
        let next = if column_full(g, c) {
            g
        } else {
            dropped(g, c, d)
        };
        assert(grid_wf(next)) by {
            if !column_full(g, c) {
                assert forall|k: int| 0 <= k < COLUMN_COUNT implies #[trigger] next[k].len()
                    <= ROW_COUNT by {
                    if k != c {
                        assert(next[k] == g[k]);
                    }
                }
            }
        }
        lemma_moves_keep_columns_bounded(next, moves.drop_first());
    }
}

/// A drop wins exactly when four cells of the dropped disc, the new one among
/// them, stand in a line across, up or along either diagonal; three do not win.
pub proof fn lemma_drop_wins_iff_four(g: Grid, c: int, d: Disc)
    requires
        grid_wf(g),
        !column_full(g, c),
    ensures
        (outcome(dropped(g, c, d), c, g[c].len() as int, d) == WinState::PlayerWon(d))
            <==> four_at(dropped(g, c, d), c, g[c].len() as int, d),
        cell_of(dropped(g, c, d), c, g[c].len() as int) == Some(d),
{
}

/// Filling the last empty cell of the board without making four in a row draws
/// the game.
pub proof fn lemma_last_cell_draws(g: Grid, c: int, d: Disc)
    requires
        grid_wf(g),
        0 <= c < COLUMN_COUNT,
        g[c].len() == ROW_COUNT - 1,
        forall|k: int| 0 <= k < COLUMN_COUNT && k != c ==> #[trigger] g[k].len() == ROW_COUNT,
        !four_at(dropped(g, c, d), c, ROW_COUNT - 1, d),
    ensures
        outcome(dropped(g, c, d), c, g[c].len() as int, d) == WinState::Draw,
{
    let next = dropped(g, c, d);
    assert forall|k: int| 0 <= k < COLUMN_COUNT implies #[trigger] column_full(next, k) by {
        if k != c {
            assert(next[k] == g[k]);
        }
    }
}

#[derive(Debug, Copy, Clone)]
struct Column {
    discs: [Option<Disc>; ROW_COUNT],
    fullness: u8,
}

impl Column {
    spec fn wf(&self) -> bool {
        &&& self.fullness <= ROW_COUNT
        &&& forall|i: int|
            0 <= i < ROW_COUNT ==> (#[trigger] self.discs[i] is Some <==> i < self.fullness)
    }

    spec fn view(&self) -> Seq<Disc> {
        Seq::new(
            self.fullness as nat,
            |i: int|
                match self.discs[i] {
                    Some(d) => d,
                    None => Disc::Red,
                },
        )
    }

    fn empty() -> (r: Column)
        ensures
            r.wf(),
            r.view().len() == 0,
    {
        Column { discs: [None, None, None, None, None, None], fullness: 0 }
    }

    fn drop_disc(&mut self, disc: Disc) -> (r: Option<u8>)
        requires
            old(self).wf(),
        ensures
            final(self).wf(),
            old(self).fullness >= ROW_COUNT ==> r is None && *final(self) == *old(self),
            old(self).fullness < ROW_COUNT ==> r == Some(old(self).fullness)
                && final(self).view() == old(self).view().push(disc),
    {
        let idx = self.fullness;
        if idx as usize >= ROW_COUNT {
            return None;
        }
        self.discs[idx as usize] = Some(disc);
        self.fullness = idx + 1;
        proof {
            assert(final(self).view() =~= old(self).view().push(disc));
        }
        Some(idx)
    }

    fn is_full(&self) -> (r: bool)
        ensures
            r == (self.fullness >= ROW_COUNT),
    {
        self.fullness as usize >= ROW_COUNT
    }
}

#[derive(Debug, Copy, Clone)]
pub struct Board {
    columns: [Column; COLUMN_COUNT],
}

impl View for Board {
    type V = Grid;

    closed spec fn view(&self) -> Grid {
        Seq::new(COLUMN_COUNT as nat, |c: int| self.columns[c].view())
    }
}

impl Default for Board {
    fn default() -> (r: Board)
        ensures
            r.wf(),
            forall|c: int| 0 <= c < COLUMN_COUNT ==> (#[trigger] r@[c]).len() == 0,
    {
        Board::new()
    }
}

impl Board {
    /// Every column is well formed.
    pub closed spec fn wf(&self) -> bool {
        forall|c: int| 0 <= c < COLUMN_COUNT ==> (#[trigger] self.columns[c]).wf()
    }

    /// The view of a well-formed board is a well-formed grid.
    pub proof fn lemma_view_wf(&self)
        requires
            self.wf(),
        ensures
            grid_wf(self@),
    {
        assert forall|c: int| 0 <= c < COLUMN_COUNT implies #[trigger] self@[c].len()
            <= ROW_COUNT by {
            assert(self.columns[c].wf());
        }
    }

    /// The empty board.
    pub fn new() -> (r: Board)
        ensures
            r.wf(),
            grid_wf(r@),
            forall|c: int| 0 <= c < COLUMN_COUNT ==> (#[trigger] r@[c]).len() == 0,
    {
        let e = Column::empty();
        let r = Board { columns: [e, e, e, e, e, e, e] };
        proof {
            assert forall|c: int| 0 <= c < COLUMN_COUNT implies (#[trigger] r.columns[c]) == e by {}
            r.lemma_view_wf();
        }
        r
    }

    /// Drops `disc` into `column`. Returns `None`, leaving the board as it was,
    /// when the column is off the board or full; otherwise the state of the game.
    pub fn drop_disc(&mut self, column: u8, disc: Disc) -> (r: Option<WinState>)
        requires
            old(self).wf(),
        ensures
            final(self).wf(),
            grid_wf(final(self)@),
            column_full(old(self)@, column as int) ==> r is None && *final(self) == *old(self),
            !column_full(old(self)@, column as int) ==> {
                &&& final(self)@ == dropped(old(self)@, column as int, disc)
                &&& r == Some(
                    outcome(final(self)@, column as int, old(self)@[column as int].len() as int, disc),
                )
            },
    {
        proof {
            self.lemma_view_wf();
        }
        if column as usize >= COLUMN_COUNT {
            return None;
        }
        let mut col = self.columns[column as usize];
        let row = match col.drop_disc(disc) {
            Some(row) => row,
            None => return None,
        };
        self.columns[column as usize] = col;
        proof {
            assert(self@ =~= dropped(old(self)@, column as int, disc));
            self.lemma_view_wf();
        }
        let win_state = if self.move_wins(column, row, disc) {
            WinState::PlayerWon(disc)
        } else if self.all_columns_full() {
            WinState::Draw
        } else {
            WinState::Ongoing
        };
        Some(win_state)
    }

    fn all_columns_full(&self) -> (r: bool)
        requires
            self.wf(),
        ensures
            r == all_full(self@),
    {
        let mut c: usize = 0;
        while c < COLUMN_COUNT
            invariant
                self.wf(),
                c <= COLUMN_COUNT,
                forall|k: int| 0 <= k < c ==> #[trigger] column_full(self@, k),
            decreases COLUMN_COUNT - c,
        {
            if !self.columns[c].is_full() {
                assert(!column_full(self@, c as int));
                return false;
            }
            c += 1;
        }
        true
    }

    /// True when `column` cannot take a disc: off the board, or full.
    pub fn is_column_full(&self, column: u8) -> (r: bool)
        requires
            self.wf(),
        ensures
            r == column_full(self@, column as int),
    {
        if column as usize >= COLUMN_COUNT {
            true
        } else {
            self.columns[column as usize].is_full()
        }
    }

    /// The disc at (column, row); `None` for an empty cell or one off the board.
    pub fn get(&self, column: i8, row: i8) -> (r: Option<Disc>)
        requires
            self.wf(),
        ensures
            r == cell_of(self@, column as int, row as int),
    {
        if column < 0 || column as usize >= COLUMN_COUNT || row < 0 || row as usize >= ROW_COUNT {
            None
        } else {
            let col = self.columns[column as usize];
            proof {
                assert(col.wf());
            }
            col.discs[row as usize]
        }
    }

    /// How many cells past (column, row) along (dx, dy) hold `disc`,
    /// counting no further than three.
    fn run_length(&self, column: i8, row: i8, dx: i8, dy: i8, disc: Disc) -> (n: u8)
        requires
            self.wf(),
            0 <= column < COLUMN_COUNT,
            0 <= row < ROW_COUNT,
            -1 <= dx <= 1,
            -1 <= dy <= 1,
        ensures
            n <= 3,
            forall|j: int|
                1 <= j <= n ==> #[trigger] line_cell(self@, column as int, row as int, dx as int, dy as int, j)
                    == Some(disc),
            n < 3 ==> line_cell(self@, column as int, row as int, dx as int, dy as int, n + 1)
                != Some(disc),
    {
        let mut c = column;
        let mut r = row;
        let mut n: u8 = 0;
        while n < 3
            invariant
                self.wf(),
                0 <= column < COLUMN_COUNT,
                0 <= row < ROW_COUNT,
                -1 <= dx <= 1,
                -1 <= dy <= 1,
                n <= 3,
                c == column + n * dx,
                r == row + n * dy,
                forall|j: int|
                    1 <= j <= n ==> #[trigger] line_cell(self@, column as int, row as int, dx as int, dy as int, j)
                        == Some(disc),
            decreases 3 - n,
        {
            proof {
                assert((n + 1) * dx == n * dx + dx) by (nonlinear_arith);
                assert((n + 1) * dy == n * dy + dy) by (nonlinear_arith);
                assert(-3 <= n * dx <= 3) by (nonlinear_arith)
                    requires n <= 3, -1 <= dx <= 1;
                assert(-3 <= n * dy <= 3) by (nonlinear_arith)
                    requires n <= 3, -1 <= dy <= 1;
            }
            c = c + dx;
            r = r + dy;
            if self.get(c, r) != Some(disc) {
                return n;
            }
            n += 1;
        }
        n
    }

    /// Whether four in a row of `disc` along (dx, dy) passes through (column, row),
    /// which holds `disc`.
    fn wins_along(&self, column: i8, row: i8, dx: i8, dy: i8, disc: Disc) -> (b: bool)
        requires
            self.wf(),
            0 <= column < COLUMN_COUNT,
            0 <= row < ROW_COUNT,
            -1 <= dx <= 1,
            -1 <= dy <= 1,
            cell_of(self@, column as int, row as int) == Some(disc),
        ensures
            b == four_along(self@, column as int, row as int, dx as int, dy as int, disc),
    {
        let ahead = self.run_length(column, row, dx, dy, disc);
        let behind = self.run_length(column, row, -dx, -dy, disc);
        let ghost g = self@;
        let ghost c = column as int;
        let ghost r = row as int;
        proof {
            assert forall|j: int| #[trigger] line_cell(g, c, r, -dx, -dy, j) == line_cell(
                g,
                c,
                r,
                dx as int,
                dy as int,
                -j,
            ) by {
                assert(j * (-dx) == (-j) * dx) by (nonlinear_arith);
                assert(j * (-dy) == (-j) * dy) by (nonlinear_arith);
            }
            assert(line_cell(g, c, r, dx as int, dy as int, 0) == Some(disc));
            if ahead + behind >= 3 {
                let k = behind as int;
                assert forall|j: int| -k <= j <= 3 - k implies #[trigger] line_cell(
                    g,
                    c,
                    r,
                    dx as int,
                    dy as int,
                    j,
                ) == Some(disc) by {
                    if j < 0 {
                        assert(line_cell(g, c, r, -dx, -dy, -j) == Some(disc));
                    }
                }
                assert(window_holds(g, c, r, dx as int, dy as int, disc, k));
            } else if four_along(g, c, r, dx as int, dy as int, disc) {
                let k = choose|k: int|
                    0 <= k <= 3 && #[trigger] window_holds(g, c, r, dx as int, dy as int, disc, k);
                if ahead < 3 - k {
                    assert(line_cell(g, c, r, dx as int, dy as int, ahead + 1) == Some(disc));
                } else {
                    assert(line_cell(g, c, r, -dx, -dy, behind + 1) == line_cell(
                        g,
                        c,
                        r,
                        dx as int,
                        dy as int,
                        -(behind + 1),
                    ));
                    assert(line_cell(g, c, r, dx as int, dy as int, -(behind + 1)) == Some(disc));
                }
            }
        }
        ahead + behind >= 3
    }

    /// Whether placing `disc` at (column, row), which now holds it, made four in a row.
    fn move_wins(&self, column: u8, row: u8, disc: Disc) -> (b: bool)
        requires
            self.wf(),
            column < COLUMN_COUNT,
            row < ROW_COUNT,
            cell_of(self@, column as int, row as int) == Some(disc),
        ensures
            b == four_at(self@, column as int, row as int, disc),
    {
        let c = column as i8;
        let r = row as i8;
        self.wins_along(c, r, 1, 0, disc) || self.wins_along(c, r, 0, 1, disc) || self.wins_along(
            c,
            r,
            1,
            1,
            disc,
        ) || self.wins_along(c, r, 1, -1, disc)
    }

    fn estimate_streak_score(&self, streak: u32, positive: bool, score: &mut u32)
        ensures
            *final(score) == apply_streak(*old(score), streak as int, positive),
    {
        let impact: u32 = match streak {
            3 => 8,
            2 => 4,
            1 => 1,
            _ => 0,
        };
        if positive {
            *score = score.saturating_add(impact);
        } else {
            *score = score.saturating_sub(impact);
        }
    }

    fn estimate_line_score(&self, disc: Disc, pos: [i8; 2], delta: [i8; 2], score: &mut u32)
        requires
            self.wf(),
            0 <= pos[0] < COLUMN_COUNT,
            0 <= pos[1] < ROW_COUNT,
            scan_direction(delta[0] as int, delta[1] as int),
        ensures
            *final(score) == line_score(
                self@,
                disc,
                pos[0] as int,
                pos[1] as int,
                delta[0] as int,
                delta[1] as int,
                *old(score),
            ),
    {
        let ghost g = self@;
        let dx = delta[0];
        let dy = delta[1];
        let mut streak: u32 = 0;
        let mut streak_startedopen = false;
        let mut streak_disc: Option<Disc> = None;
        let mut c = pos[0];
        let mut r = pos[1];
        loop
            invariant
                self.wf(),
                g == self@,
                dx == delta[0],
                dy == delta[1],
                scan_direction(dx as int, dy as int),
                0 <= c < COLUMN_COUNT,
                0 <= r < ROW_COUNT,
                streak <= (if dy == 1 { r } else { c }),
                scan_line(g, disc, c as int, r as int, dx as int, dy as int, streak as int,
                    streak_startedopen, streak_disc, *score) == line_score(g, disc, pos[0] as int,
                    pos[1] as int, dx as int, dy as int, *old(score)),
            decreases scan_measure(c as int, r as int, dx as int, dy as int),
        {
            let cell = self.get(c, r);
            let extends = match cell {
                Some(_) => streak > 0 && cell == streak_disc,
                None => false,
            };
            if extends {
                streak += 1;
            } else {
                if streak > 0 && (streak_startedopen || cell.is_none()) {
                    self.estimate_streak_score(streak, streak_disc == Some(disc), score);
                }
                match cell {
                    Some(_) => {
                        if streak > 0 {
                            // the disc that ended the last streak closes this one
                            streak_startedopen = false;
                        }
                        streak = 1;
                        streak_disc = cell;
                    },
                    None => {
                        streak = 0;
                        streak_startedopen = true;
                    },
                }
            }
            // stop after the last cell on the board
            if c + dx < 0 || c + dx >= COLUMN_COUNT as i8 || r + dy < 0 || r + dy
                >= ROW_COUNT as i8 {
                if streak > 0 && streak_startedopen {
                    self.estimate_streak_score(streak, streak_disc == Some(disc), score);
                }
                return;
            }
            c += dx;
            r += dy;
        }
    }

    /// The heuristic value of the board for `disc`, strictly between the
    /// scores of a lost and of a won game.
    pub fn estimate_score(&self, disc: Disc) -> (r: u32)
        requires
            self.wf(),
        ensures
            r == estimate(self@, disc),
            1 <= r <= crate::minimax::MAX_SCORE - 1,
    {
        let mut score = crate::minimax::AVG_SCORE;
        let mut r: i8 = 0;
        while r < ROW_COUNT as i8
            invariant
                self.wf(),
                0 <= r <= ROW_COUNT,
                rows_score(self@, disc, score, r as int) == rows_score(
                    self@,
                    disc,
                    crate::minimax::AVG_SCORE,
                    0,
                ),
            decreases ROW_COUNT - r,
        {
            self.estimate_line_score(disc, [0, r], [1, 0], &mut score);
            self.estimate_line_score(disc, [0, r], [1, 1], &mut score);
            if r != 0 {
                self.estimate_line_score(disc, [COLUMN_COUNT as i8 - 1, r], [-1, 1], &mut score);
            }
            r += 1;
        }
        let ghost after_rows = score;
        let mut c: i8 = 0;
        while c < COLUMN_COUNT as i8
            invariant
                self.wf(),
                0 <= c <= COLUMN_COUNT,
                columns_score(self@, disc, score, c as int) == columns_score(
                    self@,
                    disc,
                    after_rows,
                    0,
                ),
            decreases COLUMN_COUNT - c,
        {
            self.estimate_line_score(disc, [c, 0], [0, 1], &mut score);
            if c != 0 {
                self.estimate_line_score(disc, [c, 0], [1, 1], &mut score);
                self.estimate_line_score(disc, [c, 0], [-1, 1], &mut score);
            }
            c += 1;
        }
        if score == 0 {
            1
        } else if score >= crate::minimax::MAX_SCORE {
            crate::minimax::MAX_SCORE - 1
        } else {
            score
        }
    }

}

} // verus!
