use fourfight::game::{Board, Disc, WinState, COLUMN_COUNT, ROW_COUNT};
use fourfight::minimax::{minimax, MinimaxPlayer, AVG_SCORE, MAX_SCORE, NO_COLUMN};
use fourfight::random::RandomPlayer;

fn board_from(moves: &[(u8, Disc)]) -> Board {
    let mut b = Board::new();
    for &(c, d) in moves {
        assert!(b.drop_disc(c, d).is_some());
    }
    b
}

fn cells(b: &Board) -> Vec<Option<Disc>> {
    let mut v = Vec::new();
    for c in -1..=(COLUMN_COUNT as i8) {
        for r in -1..=(ROW_COUNT as i8) {
            v.push(b.get(c, r));
        }
    }
    v
}

#[test]
fn opposite_swaps_discs() {
    assert_eq!(Disc::Red.opposite(), Disc::Blue);
    assert_eq!(Disc::Blue.opposite(), Disc::Red);
    assert_eq!(Disc::Red.opposite().opposite(), Disc::Red);
}

#[test]
fn new_board_is_empty() {
    let b = Board::new();
    assert!(cells(&b).iter().all(|c| c.is_none()));
    for c in 0..COLUMN_COUNT as u8 {
        assert!(!b.is_column_full(c));
    }
}

#[test]
fn drop_stacks_bottom_up() {
    let mut b = Board::new();
    assert_eq!(b.drop_disc(2, Disc::Red), Some(WinState::Ongoing));
    assert_eq!(b.drop_disc(2, Disc::Blue), Some(WinState::Ongoing));
    assert_eq!(b.get(2, 0), Some(Disc::Red));
    assert_eq!(b.get(2, 1), Some(Disc::Blue));
    assert_eq!(b.get(2, 2), None);
    assert_eq!(b.get(-1, 0), None);
    assert_eq!(b.get(7, 0), None);
    assert_eq!(b.get(2, 6), None);
}

#[test]
fn column_fills_after_six_drops() {
    let mut b = Board::new();
    for i in 0..ROW_COUNT {
        assert!(!b.is_column_full(0));
        let d = if (i / 2) % 2 == 0 { Disc::Red } else { Disc::Blue };
        assert_eq!(b.drop_disc(0, d), Some(WinState::Ongoing));
    }
    assert!(b.is_column_full(0));
    assert!(!b.is_column_full(1));
}

#[test]
fn out_of_range_column_is_full_and_refused() {
    let mut b = Board::new();
    assert!(b.is_column_full(7));
    assert!(b.is_column_full(255));
    let before = cells(&b);
    assert_eq!(b.drop_disc(7, Disc::Red), None);
    assert_eq!(cells(&b), before);
}

#[test]
fn full_column_refuses_and_keeps_board() {
    let mut b = board_from(&[
        (4, Disc::Red),
        (4, Disc::Red),
        (4, Disc::Blue),
        (4, Disc::Blue),
        (4, Disc::Red),
        (4, Disc::Red),
    ]);
    let before = cells(&b);
    assert_eq!(b.drop_disc(4, Disc::Blue), None);
    assert_eq!(cells(&b), before);
}

#[test]
fn four_across_wins() {
    let mut b = Board::new();
    for c in 0..3u8 {
        assert_eq!(b.drop_disc(c, Disc::Red), Some(WinState::Ongoing));
        assert_eq!(b.drop_disc(c, Disc::Blue), Some(WinState::Ongoing));
    }
    assert_eq!(b.drop_disc(3, Disc::Red), Some(WinState::PlayerWon(Disc::Red)));
}

#[test]
fn four_across_without_replies_wins() {
    let mut b = Board::new();
    for c in 0..3u8 {
        assert_eq!(b.drop_disc(c, Disc::Red), Some(WinState::Ongoing));
    }
    assert_eq!(b.drop_disc(3, Disc::Red), Some(WinState::PlayerWon(Disc::Red)));
}

#[test]
fn filling_the_gap_wins() {
    let mut b = board_from(&[(0, Disc::Blue), (1, Disc::Blue), (3, Disc::Blue)]);
    assert_eq!(b.drop_disc(2, Disc::Blue), Some(WinState::PlayerWon(Disc::Blue)));
}

#[test]
fn three_in_a_row_does_not_win() {
    let mut b = board_from(&[(0, Disc::Red), (1, Disc::Red)]);
    assert_eq!(b.drop_disc(2, Disc::Red), Some(WinState::Ongoing));
    let mut v = board_from(&[(5, Disc::Blue), (5, Disc::Blue)]);
    assert_eq!(v.drop_disc(5, Disc::Blue), Some(WinState::Ongoing));
}

#[test]
fn four_up_wins() {
    let mut b = board_from(&[(6, Disc::Blue), (6, Disc::Blue), (6, Disc::Blue)]);
    assert_eq!(b.drop_disc(6, Disc::Blue), Some(WinState::PlayerWon(Disc::Blue)));
}

#[test]
fn rising_diagonal_wins() {
    let mut b = board_from(&[
        (0, Disc::Red),
        (1, Disc::Blue),
        (1, Disc::Red),
        (2, Disc::Blue),
        (2, Disc::Blue),
        (2, Disc::Red),
        (3, Disc::Blue),
        (3, Disc::Blue),
        (3, Disc::Blue),
    ]);
    assert_eq!(b.drop_disc(3, Disc::Red), Some(WinState::PlayerWon(Disc::Red)));
}

#[test]
fn falling_diagonal_wins() {
    let mut b = board_from(&[
        (6, Disc::Red),
        (5, Disc::Blue),
        (5, Disc::Red),
        (4, Disc::Blue),
        (4, Disc::Blue),
        (4, Disc::Red),
        (3, Disc::Blue),
        (3, Disc::Blue),
        (3, Disc::Blue),
    ]);
    assert_eq!(b.drop_disc(3, Disc::Red), Some(WinState::PlayerWon(Disc::Red)));
}

#[test]
fn filling_the_board_without_four_draws() {
    let order: [u8; 42] = [
        5, 4, 5, 0, 6, 2, 4, 5, 5, 0, 4, 1, 1, 0, 4, 5, 6, 5, 3, 1, 1, 2, 2, 6, 2, 6, 6, 3, 6,
        2, 0, 3, 0, 3, 3, 4, 3, 1, 4, 2, 1, 0,
    ];
    let mut b = Board::new();
    let mut disc = Disc::Red;
    for (i, &c) in order.iter().enumerate() {
        let state = b.drop_disc(c, disc);
        if i + 1 < order.len() {
            assert_eq!(state, Some(WinState::Ongoing), "move {}", i);
        } else {
            assert_eq!(state, Some(WinState::Draw));
        }
        disc = disc.opposite();
    }
    for c in 0..COLUMN_COUNT as u8 {
        assert!(b.is_column_full(c));
    }
}

#[test]
fn estimate_of_empty_board_is_neutral() {
    let b = Board::new();
    assert_eq!(b.estimate_score(Disc::Red), AVG_SCORE);
    assert_eq!(b.estimate_score(Disc::Blue), AVG_SCORE);
}

#[test]
fn estimate_of_single_disc() {
    let b = board_from(&[(3, Disc::Red)]);
    assert_eq!(b.estimate_score(Disc::Red), AVG_SCORE + 4);
    assert_eq!(b.estimate_score(Disc::Blue), AVG_SCORE - 4);
}

#[test]
fn estimate_of_two_adjacent_discs() {
    let b = board_from(&[(0, Disc::Red), (1, Disc::Red)]);
    assert_eq!(b.estimate_score(Disc::Red), AVG_SCORE + 9);
    assert_eq!(b.estimate_score(Disc::Blue), AVG_SCORE - 9);
}

#[test]
fn estimate_of_mixed_position() {
    let b = board_from(&[
        (3, Disc::Red),
        (3, Disc::Blue),
        (2, Disc::Red),
        (4, Disc::Blue),
        (2, Disc::Blue),
    ]);
    assert_eq!(b.estimate_score(Disc::Red), AVG_SCORE - 10);
    assert_eq!(b.estimate_score(Disc::Blue), AVG_SCORE + 10);
}

#[test]
fn estimate_counts_the_streak_after_a_change_of_disc() {
    let b = board_from(&[(0, Disc::Red), (1, Disc::Blue)]);
    assert_eq!(b.estimate_score(Disc::Red), AVG_SCORE - 2);
    assert_eq!(b.estimate_score(Disc::Blue), AVG_SCORE + 2);
}

#[test]
fn estimate_treats_the_edges_as_closed() {
    let mut b = Board::new();
    for c in 0..COLUMN_COUNT as u8 {
        let d = if c % 2 == 0 { Disc::Blue } else { Disc::Red };
        assert_eq!(b.drop_disc(c, d), Some(WinState::Ongoing));
    }
    // the bottom row counts nothing; the columns and diagonals above it leave
    // one more open Blue disc than Red
    assert_eq!(b.estimate_score(Disc::Red), AVG_SCORE - 1);
    assert_eq!(b.estimate_score(Disc::Blue), AVG_SCORE + 1);
}

#[test]
fn estimate_stays_inside_the_open_range() {
    let b = board_from(&[(0, Disc::Red), (1, Disc::Blue), (1, Disc::Red), (5, Disc::Blue)]);
    for d in [Disc::Red, Disc::Blue] {
        let s = b.estimate_score(d);
        assert!(s >= 1 && s <= MAX_SCORE - 1);
    }
}

#[test]
fn score_midpoint_reflects() {
    assert_eq!(MAX_SCORE - AVG_SCORE, AVG_SCORE);
    assert_eq!(MAX_SCORE % 2, 0);
}

#[test]
fn depth_one_takes_the_win() {
    let b = board_from(&[
        (0, Disc::Red),
        (6, Disc::Blue),
        (1, Disc::Red),
        (6, Disc::Blue),
        (2, Disc::Red),
        (6, Disc::Blue),
    ]);
    let r = minimax(&b, Disc::Red, 0, MAX_SCORE, 1);
    assert_eq!(r.column, 3);
    assert_eq!(r.score, MAX_SCORE);
    let p = MinimaxPlayer::new(1);
    assert_eq!(p.ply, 1);
    assert_eq!(p.best_move(&b, Disc::Red), r);
}

#[test]
fn depth_two_blocks_the_threat() {
    let b = board_from(&[(0, Disc::Red), (6, Disc::Blue), (1, Disc::Red), (6, Disc::Blue), (2, Disc::Red)]);
    let r = minimax(&b, Disc::Blue, 0, MAX_SCORE, 2);
    assert_eq!(r.column, 3);
    assert!(r.score < MAX_SCORE);
    assert!(r.steps > 1);
}

#[test]
fn depth_zero_returns_the_estimate() {
    let b = board_from(&[(3, Disc::Red), (3, Disc::Blue)]);
    let r = minimax(&b, Disc::Red, 0, MAX_SCORE, 0);
    assert_eq!(r.score, b.estimate_score(Disc::Red));
    assert_eq!(r.steps, 1);
    assert_eq!(r.column, NO_COLUMN);
}

#[test]
fn random_player_picks_open_columns() {
    let mut b = Board::new();
    for d in [Disc::Red, Disc::Blue, Disc::Blue, Disc::Red, Disc::Red, Disc::Blue] {
        b.drop_disc(0, d);
    }
    let p = RandomPlayer::new();
    assert_eq!(p.pick_move(&b, 0), 1);
    assert_eq!(p.pick_move(&b, 5), 6);
    assert_eq!(p.pick_move(&b, 6), 1);
    assert_eq!(p.pick_move(&b, 7), 2);
}

#[test]
fn depth_zero_needs_no_open_column() {
    let order: [u8; 42] = [
        5, 4, 5, 0, 6, 2, 4, 5, 5, 0, 4, 1, 1, 0, 4, 5, 6, 5, 3, 1, 1, 2, 2, 6, 2, 6, 6, 3, 6,
        2, 0, 3, 0, 3, 3, 4, 3, 1, 4, 2, 1, 0,
    ];
    let mut b = Board::new();
    let mut disc = Disc::Red;
    for &c in order.iter() {
        assert!(b.drop_disc(c, disc).is_some());
        disc = disc.opposite();
    }
    let r = minimax(&b, Disc::Blue, 0, MAX_SCORE, 0);
    assert_eq!(r.score, b.estimate_score(Disc::Blue));
    assert_eq!(r.steps, 1);
    assert_eq!(r.column, NO_COLUMN);
}
