use mcts::coords::Coords2D;
use mcts::driver::{App, ComputerPlayer, Controller};
use mcts::fixed::{isqrt, ln, log2, LN_2, SCALE};
use mcts::game::{Game, TwoPlayerGame};
use mcts::player::Player;
use mcts::search::search;
use mcts::tree::{ucb, Tree};
use mcts::ttt::{Board, Move};
use rand::rngs::StdRng;
use rand::SeedableRng;

fn mv(x: usize, y: usize) -> Move {
    Move(Coords2D { x, y })
}

/// A board built by playing `marks` in turn, White first.
fn board_with(marks: &[(usize, usize)]) -> Board {
    let mut b = Board::new();
    let mut p = Player::White;
    for &(x, y) in marks {
        b.play(p, &mv(x, y));
        p = p.opponent();
    }
    b
}

#[test]
fn opponent_is_involutive() {
    for p in [Player::White, Player::Black] {
        assert_eq!(p.opponent().opponent(), p);
        assert_ne!(p.opponent(), p);
    }
    assert_eq!(Player::White.opponent(), Player::Black);
}

#[test]
fn integer_square_root() {
    assert_eq!(isqrt(0), 0);
    assert_eq!(isqrt(1), 1);
    assert_eq!(isqrt(15), 3);
    assert_eq!(isqrt(16), 4);
    assert_eq!(isqrt(17), 4);
    assert_eq!(isqrt(u64::MAX), 4294967295);
}

#[test]
fn fixed_point_logarithms() {
    assert_eq!(log2(1), 0);
    assert_eq!(log2(2), SCALE);
    assert_eq!(log2(8), 3 * SCALE);
    assert_eq!(log2(1024), 10 * SCALE);
    assert_eq!(ln(1), 0);
    assert_eq!(ln(2), LN_2);
    assert_eq!(ln(1024), 10 * LN_2);
    let l3 = log2(3) as f64 / SCALE as f64;
    assert!((l3 - 3f64.log2()).abs() < 1e-5);
    let l10 = ln(10) as f64 / SCALE as f64;
    assert!((l10 - 10f64.ln()).abs() < 1e-5);
}

#[test]
fn ucb1_fixed_point_values() {
    // One win in one visit, under a parent visited once: ln 1 = 0.
    assert_eq!(ucb(2, 1, 1, 710), SCALE as u128);
    // No score, one visit, parent visited 1024 times, bias 1: sqrt(2 ln 1024).
    assert_eq!(ucb(0, 1, 1024, 1000), 3904158);
    // 1.5 points over 4 visits, bias 0.71: 0.375 + 0.71 * sqrt(2 ln 1024 / 4).
    assert_eq!(ucb(3, 4, 1024, 710), 393216 + 1385976);
    let approx = ucb(3, 4, 1024, 710) as f64 / SCALE as f64;
    let exact = 0.375 + 0.71 * (2.0 * 1024f64.ln() / 4.0).sqrt();
    assert!((approx - exact).abs() < 1e-4);
    // A draw is worth half a point.
    assert_eq!(ucb(1, 1, 1, 0), SCALE as u128 / 2);
}

#[test]
fn empty_board_moves() {
    let g: Game<Board, Move> = Game::new(Board::new());
    assert_eq!(g.current_player(), Player::White);
    assert!(!g.is_over());
    let moves = g.possible_moves();
    assert_eq!(moves.len(), 9);
    assert_eq!(moves[0], mv(0, 0));
    assert_eq!(moves[1], mv(1, 0));
    assert_eq!(moves[3], mv(0, 1));
    assert_eq!(moves[8], mv(2, 2));
}

#[test]
fn play_flips_turn_and_marks_cell() {
    let mut g: Game<Board, Move> = Game::new(Board::new());
    g.play(&mv(1, 1));
    assert_eq!(g.current_player(), Player::Black);
    assert_eq!(g.inner().cell(1, 1), Some(Player::White));
    assert_eq!(g.inner().cell(0, 0), None);
    assert_eq!(g.possible_moves().len(), 8);
    g.play(&mv(0, 0));
    assert_eq!(g.current_player(), Player::White);
    assert_eq!(g.inner().cell(0, 0), Some(Player::Black));
}

#[test]
fn row_wins_and_ends_game() {
    // White fills the top row; Black plays below.
    let b = board_with(&[(0, 0), (0, 1), (1, 0), (1, 1), (2, 0)]);
    let g: Game<Board, Move> = Game::new(b);
    assert!(g.is_over());
    assert_eq!(g.winner(), Some(Player::White));
}

#[test]
fn diagonal_win_for_black() {
    let b = board_with(&[(1, 0), (0, 0), (2, 0), (1, 1), (0, 1), (2, 2)]);
    let g: Game<Board, Move> = Game::new(b);
    assert!(g.is_over());
    assert_eq!(g.winner(), Some(Player::Black));
}

#[test]
fn full_board_draw() {
    // W B W / W B B / B W W
    let b = board_with(&[(0, 0), (1, 0), (2, 0), (1, 1), (0, 1), (2, 1), (1, 2), (0, 2), (2, 2)]);
    let g: Game<Board, Move> = Game::new(b);
    assert!(g.is_over());
    assert_eq!(g.winner(), None);
}

#[test]
fn root_visits_equal_iterations() {
    let g: Game<Board, Move> = Game::new(Board::new());
    let mut rng = StdRng::seed_from_u64(7);
    for n in [1usize, 2, 10, 57] {
        let t = Tree::build(&g, &mut rng, n, 710);
        assert_eq!(t.visits(0), n as u64);
        let total: u64 = t.children(0).iter().map(|&c| t.visits(c)).sum();
        assert_eq!(total, n as u64);
    }
}

#[test]
fn one_iteration_adds_one_root_visit() {
    let g: Game<Board, Move> = Game::new(Board::new());
    let mut rng = StdRng::seed_from_u64(3);
    let mut t = Tree::new(&g, &mut rng);
    assert_eq!(t.len(), 1);
    assert_eq!(t.visits(0), 0);
    for i in 1..=30u64 {
        let mut work = g.clone();
        t.iterate(&mut work, &mut rng, 710);
        assert_eq!(t.visits(0), i);
        assert!(t.len() as u64 <= i + 1);
    }
}

#[test]
fn expanded_children_have_visits() {
    let g: Game<Board, Move> = Game::new(Board::new());
    let mut rng = StdRng::seed_from_u64(11);
    let t = Tree::build(&g, &mut rng, 300, 710);
    for i in 0..t.len() {
        for &c in t.children(i).iter() {
            assert!(t.visits(c) >= 1);
            assert!(c > i);
        }
        assert!(t.score(i) <= 2 * t.visits(i) as u128);
    }
}

#[test]
fn draw_scores_half_point_along_path() {
    // W B W / W B B / B W _ : the only move left, White's, ends in a draw.
    let b = board_with(&[(0, 0), (1, 0), (2, 0), (1, 1), (0, 1), (2, 1), (1, 2), (0, 2)]);
    let g: Game<Board, Move> = Game::new(b);
    assert_eq!(g.possible_moves(), vec![mv(2, 2)]);
    let mut rng = StdRng::seed_from_u64(5);
    let mut t = Tree::new(&g, &mut rng);
    let mut work = g.clone();
    let w = t.iterate(&mut work, &mut rng, 710);
    assert_eq!(w, None);
    assert_eq!(t.len(), 2);
    assert_eq!(t.score(0), 1);
    assert_eq!(t.score(1), 1);
    // The second iteration reaches the finished position without a rollout.
    let mut work = g.clone();
    let w = t.iterate(&mut work, &mut rng, 710);
    assert_eq!(w, None);
    assert_eq!(t.len(), 2);
    assert_eq!(t.score(0), 2);
    assert_eq!(t.score(1), 2);
    assert_eq!(t.visits(1), 2);
}

#[test]
fn win_scores_full_point_for_winner() {
    // White to move wins at (2, 0).
    let b = board_with(&[(0, 0), (0, 1), (1, 0), (1, 1)]);
    let g: Game<Board, Move> = Game::new(b);
    let mut rng = StdRng::seed_from_u64(1);
    let mut t = Tree::build(&g, &mut rng, 200, 710);
    let children = t.children(0).clone();
    for &c in children.iter() {
        assert_eq!(t.last_player(c), Player::White);
    }
    assert_eq!(t.last_player(0), Player::Black);
    let winning = children.iter().find(|&&c| t.score(c) == 2 * t.visits(c) as u128);
    assert!(winning.is_some());
    let mut work = g.clone();
    t.iterate(&mut work, &mut rng, 710);
    assert_eq!(t.visits(0), 201);
    assert_eq!(search(&g, &mut rng, 200, 710), mv(2, 0));
}

#[test]
fn search_is_reproducible() {
    let b = board_with(&[(1, 1), (0, 0)]);
    let g: Game<Board, Move> = Game::new(b);
    for seed in [0u64, 1, 42] {
        let mut r1 = StdRng::seed_from_u64(seed);
        let mut r2 = StdRng::seed_from_u64(seed);
        let m1 = search(&g, &mut r1, 500, 710);
        let m2 = search(&g, &mut r2, 500, 710);
        assert_eq!(m1, m2);
    }
}

#[test]
fn search_blocks_a_threat() {
    // Black holds (0, 0) and (1, 0); White must take (2, 0), which also wins.
    let b = board_with(&[(1, 1), (0, 0), (2, 2), (1, 0)]);
    let g: Game<Board, Move> = Game::new(b);
    for seed in 0..5u64 {
        let mut rng = StdRng::seed_from_u64(seed);
        assert_eq!(search(&g, &mut rng, 2000, 710), mv(2, 0));
    }
}

#[test]
fn search_on_empty_board_returns_legal_move() {
    let g: Game<Board, Move> = Game::new(Board::new());
    let mut rng = StdRng::seed_from_u64(9);
    let m = search(&g, &mut rng, 2000, 710);
    assert!(g.possible_moves().contains(&m));
}

#[test]
fn search_never_loses_against_itself() {
    let mut rng = StdRng::seed_from_u64(2024);
    let mut g: Game<Board, Move> = Game::new(Board::new());
    while !g.is_over() {
        let m = search(&g, &mut rng, 2000, 710);
        g.play(&m);
    }
    assert_eq!(g.winner(), None);
}

fn computer(seed: u64, nb_iter: usize) -> Controller {
    Controller::Computer(ComputerPlayer::new(StdRng::seed_from_u64(seed), nb_iter, 710))
}

#[test]
fn single_move_shortcut() {
    let b = board_with(&[(0, 0), (1, 0), (2, 0), (1, 1), (0, 1), (2, 1), (1, 2), (0, 2)]);
    let mut app: App<Board, Move> = App::new(b, computer(1, 1000), computer(2, 1000));
    assert_eq!(app.next_move(), Some(mv(2, 2)));
    assert_eq!(app.game().current_player(), Player::White);
    let mut human: App<Board, Move> = App::new(
        board_with(&[(0, 0), (1, 0), (2, 0), (1, 1), (0, 1), (2, 1), (1, 2), (0, 2)]),
        Controller::Human,
        Controller::Human,
    );
    assert_eq!(human.next_move(), Some(mv(2, 2)));
    human.play(&mv(2, 2));
    assert!(human.game().is_over());
    assert_eq!(human.game().winner(), None);
}

#[test]
fn human_to_move_gets_no_move() {
    let mut app: App<Board, Move> = App::new(Board::new(), Controller::Human, computer(3, 100));
    assert_eq!(app.next_move(), None);
    app.play(&mv(1, 1));
    let m = app.next_move();
    assert!(m.is_some());
    assert_eq!(app.game().current_player(), Player::Black);
}

#[test]
fn quiet_run_finishes_game() {
    let mut app: App<Board, Move> = App::new(Board::new(), computer(4, 300), computer(5, 300));
    let w = app.run_quiet();
    assert!(app.game().is_over());
    assert_eq!(w, app.game().winner());
}

#[test]
fn quiet_run_from_single_move_position() {
    let b = board_with(&[(0, 0), (1, 0), (2, 0), (1, 1), (0, 1), (2, 1), (1, 2), (0, 2)]);
    let mut app: App<Board, Move> = App::new(b, computer(6, 10), computer(7, 10));
    assert_eq!(app.run_quiet(), None);
    assert_eq!(app.game().inner().cell(2, 2), Some(Player::White));
}
