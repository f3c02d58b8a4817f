use tictactoe::board::Board;
use tictactoe::game::Game;
use tictactoe::mark::Mark;
use tictactoe::outcome::{Outcome, RelativeOutcome};
use tictactoe::player::{Player, PlayerType};

#[test]
fn mark_reverse_swaps() {
    assert!(Mark::Cross.reverse() == Mark::Nought);
    assert!(Mark::Nought.reverse() == Mark::Cross);
    assert!(Mark::Cross.reverse().reverse() == Mark::Cross);
}

#[test]
fn relative_outcome_flip_laws() {
    assert!(RelativeOutcome::Win.flip() == RelativeOutcome::Loss);
    assert!(RelativeOutcome::Draw.flip() == RelativeOutcome::Draw);
    assert!(RelativeOutcome::Loss.flip() == RelativeOutcome::Win);
    assert!(RelativeOutcome::Win.flip().flip() == RelativeOutcome::Win);
    assert!(RelativeOutcome::Loss.flip().flip() == RelativeOutcome::Loss);
}

#[test]
fn relative_outcome_rank_order() {
    assert!(RelativeOutcome::Win.rank() > RelativeOutcome::Draw.rank());
    assert!(RelativeOutcome::Draw.rank() > RelativeOutcome::Loss.rank());
}

#[test]
fn empty_board_state() {
    let b = Board::empty(Mark::Cross);
    assert_eq!(b.count(), 0);
    assert!(b.get_outcome().is_none());
    assert!(*b.get_turn() == Mark::Cross);
    assert_eq!(b.get_options().len(), 9);
}

#[test]
fn alternation_after_each_move() {
    let mut b = Board::empty(Mark::Nought);
    b.set((1, 1), Mark::Nought);
    assert!(*b.get_turn() == Mark::Cross);
    b.set((0, 0), Mark::Cross);
    assert!(*b.get_turn() == Mark::Nought);
    assert_eq!(b.count(), 2);
}

#[test]
fn occupied_cell_leaves_legal_moves() {
    let mut b = Board::empty(Mark::Cross);
    b.set((1, 1), Mark::Cross);
    let options = b.get_options();
    assert_eq!(options.len(), 8);
    assert!(!options.contains(&(1, 1)));
}

#[test]
fn row_win_is_detected() {
    let mut b = Board::empty(Mark::Cross);
    b.set((0, 0), Mark::Cross);
    b.set((1, 0), Mark::Nought);
    b.set((0, 1), Mark::Cross);
    b.set((1, 1), Mark::Nought);
    assert!(b.get_outcome().is_none());
    b.set((0, 2), Mark::Cross);
    assert!(*b.get_outcome() == Some(Outcome::Victory(Mark::Cross)));
}

#[test]
fn column_and_diagonal_wins_are_detected() {
    let mut b = Board::empty(Mark::Nought);
    b.set((0, 2), Mark::Nought);
    b.set((0, 0), Mark::Cross);
    b.set((1, 2), Mark::Nought);
    b.set((1, 0), Mark::Cross);
    b.set((2, 2), Mark::Nought);
    assert!(*b.get_outcome() == Some(Outcome::Victory(Mark::Nought)));

    let mut d = Board::empty(Mark::Cross);
    d.set((0, 0), Mark::Cross);
    d.set((0, 1), Mark::Nought);
    d.set((1, 1), Mark::Cross);
    d.set((0, 2), Mark::Nought);
    d.set((2, 2), Mark::Cross);
    assert!(*d.get_outcome() == Some(Outcome::Victory(Mark::Cross)));
}

#[test]
fn full_board_without_line_is_a_draw() {
    // X O X / X O O / O X X, played in an alternating order.
    let mut b = Board::empty(Mark::Cross);
    b.set((0, 0), Mark::Cross);
    b.set((0, 1), Mark::Nought);
    b.set((0, 2), Mark::Cross);
    b.set((1, 1), Mark::Nought);
    b.set((1, 0), Mark::Cross);
    b.set((1, 2), Mark::Nought);
    b.set((2, 1), Mark::Cross);
    b.set((2, 0), Mark::Nought);
    assert!(b.get_outcome().is_none());
    b.set((2, 2), Mark::Cross);
    assert!(*b.get_outcome() == Some(Outcome::Draw));
    assert_eq!(b.count(), 9);
    assert!(b.get_options().is_empty());
}

#[test]
fn line_completed_on_ninth_move_is_a_victory_not_a_draw() {
    // X X O / O O X / X O X until the last cell, then X completes the
    // first column: X X O / O O X / X O X has no line, so rearrange:
    // X at (0,0),(1,1) ... build a game where the ninth stone wins.
    // Final grid: X O X / O O X / O X X with X playing (2,2) last:
    // third column is X X X.
    let mut b = Board::empty(Mark::Cross);
    b.set((0, 0), Mark::Cross);
    b.set((0, 1), Mark::Nought);
    b.set((0, 2), Mark::Cross);
    b.set((1, 0), Mark::Nought);
    b.set((1, 2), Mark::Cross);
    b.set((1, 1), Mark::Nought);
    b.set((2, 1), Mark::Cross);
    b.set((2, 0), Mark::Nought);
    assert!(b.get_outcome().is_none());
    b.set((2, 2), Mark::Cross);
    assert_eq!(b.count(), 9);
    assert!(*b.get_outcome() == Some(Outcome::Victory(Mark::Cross)));
}

#[test]
fn symmetric_images_share_the_outcome() {
    // A board and its transposed image, both built by ordinary moves,
    // are classified identically.
    let mut b = Board::empty(Mark::Cross);
    b.set((0, 0), Mark::Cross);
    b.set((1, 0), Mark::Nought);
    b.set((0, 1), Mark::Cross);
    b.set((1, 1), Mark::Nought);
    b.set((0, 2), Mark::Cross);

    let mut t = Board::empty(Mark::Cross);
    t.set((0, 0), Mark::Cross);
    t.set((0, 1), Mark::Nought);
    t.set((1, 0), Mark::Cross);
    t.set((1, 1), Mark::Nought);
    t.set((2, 0), Mark::Cross);

    assert!(*b.get_outcome() == Some(Outcome::Victory(Mark::Cross)));
    assert!(*b.get_outcome() == *t.get_outcome());
}

#[test]
fn empty_board_has_three_distinct_openings() {
    // Corner, edge and center are the three symmetry classes; each is
    // represented by its first cell in row-major order, and the
    // representatives come out in that order.
    let b = Board::empty(Mark::Cross);
    let distinct = b.options_without_symmetries();
    assert_eq!(distinct.len(), 3);
    let positions: Vec<(usize, usize)> = distinct.iter().map(|e| e.0).collect();
    assert_eq!(positions, vec![(0, 0), (0, 1), (1, 1)]);
}

#[test]
fn perfect_play_from_empty_board_is_a_draw() {
    let b = Board::empty(Mark::Cross);
    let (outcome, positions) = b.deduce_optimal_strategies();
    assert!(outcome == RelativeOutcome::Draw);
    for i in 0..3 {
        for j in 0..3 {
            assert!(positions.contains(&(i, j)));
        }
    }
}

#[test]
fn center_against_corner_is_at_least_a_draw() {
    let mut b = Board::empty(Mark::Cross);
    b.set((1, 1), Mark::Cross);
    b.set((0, 0), Mark::Nought);
    let (outcome, positions) = b.deduce_optimal_strategies();
    assert!(outcome != RelativeOutcome::Loss);
    assert!(!positions.is_empty());
}

#[test]
fn immediate_winning_move_is_reported() {
    // X holds (0,0) and (0,1), O holds (1,1) and (2,2); X to move can
    // complete the first row at (0,2).
    let mut b = Board::empty(Mark::Cross);
    b.set((0, 0), Mark::Cross);
    b.set((1, 1), Mark::Nought);
    b.set((0, 1), Mark::Cross);
    b.set((2, 2), Mark::Nought);
    let (outcome, positions) = b.deduce_optimal_strategies();
    assert!(outcome == RelativeOutcome::Win);
    assert!(positions.contains(&(0, 2)));
}

#[test]
fn blocking_the_open_threat() {
    // X holds (0,0) and (0,1) with (0,2) free; O to move must block at
    // (0,2) or lose.
    let mut b = Board::empty(Mark::Cross);
    b.set((0, 0), Mark::Cross);
    b.set((1, 1), Mark::Nought);
    b.set((0, 1), Mark::Cross);
    let (outcome, positions) = b.deduce_optimal_strategies();
    assert!(outcome != RelativeOutcome::Win);
    assert!(positions.contains(&(0, 2)));
    assert!(!positions.contains(&(2, 0)));
}

#[test]
fn game_and_players_are_assembled() {
    let p1 = Player::create(Mark::Cross, PlayerType::User);
    let p2 = Player::create(Mark::Nought, PlayerType::Machine);
    assert!(*p1.get_mark() == Mark::Cross);
    assert!(matches!(*p1.get_player_type(), PlayerType::User));
    assert!(matches!(*p2.get_player_type(), PlayerType::Machine));
    let g = Game::create(Mark::Nought, p1, p2);
    assert_eq!(g.board.count(), 0);
    assert!(*g.board.get_turn() == Mark::Nought);
    let by_mark = g.get_player_by_mark(&Mark::Nought);
    assert!(matches!(*by_mark.get_player_type(), PlayerType::Machine));
}
