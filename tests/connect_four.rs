use mcts::connect4::{Board, Coords, Move};
use mcts::game::{Game, TwoPlayerGame};
use mcts::player::Player;
use mcts::search::search;
use rand::rngs::StdRng;
use rand::SeedableRng;

fn col(c: usize) -> Move {
    Move(Coords(c))
}

/// A board built by dropping tokens in `cols` in turn, White first.
fn board_with(cols: &[usize]) -> Board {
    let mut b = Board::new();
    let mut p = Player::White;
    for &c in cols {
        b.play(p, &col(c));
        p = p.opponent();
    }
    b
}

#[test]
fn empty_board_offers_every_column() {
    let b = Board::new();
    let moves = b.possible_moves(Player::White);
    assert_eq!(moves, (0..7).map(col).collect::<Vec<_>>());
    for c in 0..7 {
        for r in 0..6 {
            assert_eq!(b.cell(c, r), None);
        }
    }
}

#[test]
fn tokens_fall_to_the_bottom() {
    let b = board_with(&[3, 3, 3]);
    assert_eq!(b.cell(3, 0), Some(Player::White));
    assert_eq!(b.cell(3, 1), Some(Player::Black));
    assert_eq!(b.cell(3, 2), Some(Player::White));
    assert_eq!(b.cell(3, 3), None);
}

#[test]
fn full_column_is_not_offered() {
    let b = board_with(&[0, 0, 0, 0, 0, 0]);
    let moves = b.possible_moves(Player::White);
    assert_eq!(moves, (1..7).map(col).collect::<Vec<_>>());
}

#[test]
fn vertical_four_wins() {
    let b = board_with(&[0, 1, 0, 1, 0, 1, 0]);
    assert_eq!(b.possible_moves(Player::Black).len(), 0);
    assert_eq!(b.winner(), Some(Player::White));
}

#[test]
fn horizontal_four_wins() {
    let b = board_with(&[0, 0, 1, 1, 2, 2, 6, 3, 6, 3]);
    assert_eq!(b.possible_moves(Player::White).len(), 0);
    assert_eq!(b.winner(), Some(Player::Black));
}

#[test]
fn diagonal_four_wins() {
    // White builds the up-right diagonal (0,0) (1,1) (2,2) (3,3).
    let b = board_with(&[0, 1, 1, 2, 2, 3, 2, 3, 3, 6, 3]);
    assert_eq!(b.cell(3, 3), Some(Player::White));
    assert_eq!(b.winner(), Some(Player::White));
    let g: Game<Board, Move> = Game::new(b);
    assert!(g.is_over());
}

#[test]
fn descending_diagonal_four_wins() {
    // White builds the down-right diagonal (3,3) (4,2) (5,1) (6,0).
    let b = board_with(&[6, 5, 5, 4, 4, 3, 4, 3, 3, 0, 3]);
    assert_eq!(b.cell(3, 3), Some(Player::White));
    assert_eq!(b.cell(4, 2), Some(Player::White));
    assert_eq!(b.winner(), Some(Player::White));
}

#[test]
fn three_in_a_row_is_no_win() {
    let b = board_with(&[0, 0, 1, 1, 2, 2]);
    assert_eq!(b.possible_moves(Player::White).len(), 7);
}

#[test]
fn search_takes_the_winning_column() {
    // White has three at the bottom of columns 0, 1, 2; column 3 wins.
    let b = board_with(&[0, 0, 1, 1, 2, 2]);
    let g: Game<Board, Move> = Game::new(b);
    let mut rng = StdRng::seed_from_u64(8);
    assert_eq!(search(&g, &mut rng, 3000, 710), col(3));
}

#[test]
fn search_blocks_the_opponent() {
    // Black has three at the bottom of columns 4, 5, 6 and threatens column 3.
    let b = board_with(&[0, 4, 0, 5, 1, 6]);
    let g: Game<Board, Move> = Game::new(b);
    let mut rng = StdRng::seed_from_u64(4);
    assert_eq!(search(&g, &mut rng, 3000, 710), col(3));
}
