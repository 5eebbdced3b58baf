use qubic::position::Coordinates;
use qubic::position::Evaluation;
use qubic::position::Player;
use qubic::position::Position;

fn play_all(seq: &[(usize, usize)]) -> Position {
    let mut position = Position::new();
    for &(file, rank) in seq {
        let coordinates = Coordinates::new(file, rank);
        assert!(position.can_play(coordinates));
        position = position.play(coordinates);
    }
    position
}

#[test]
fn test_position_evolution() {
    let mut position = Position::new();

    position = position.play(Coordinates::new(0, 0));

    assert_eq!(position.get_static_evaluation(), Evaluation::HeuristicScore(-7));
    assert_eq!(position.active_player, Player::Black);

    position = position.play(Coordinates::new(0, 3));
    position = position.play(Coordinates::new(3, 0));
    position = position.play(Coordinates::new(3, 3));
    position = position.play(Coordinates::new(1, 0));
    position = position.play(Coordinates::new(2, 0));

    assert_eq!(position.get_static_evaluation(), Evaluation::HeuristicScore(-2));
    assert_eq!(position.active_player, Player::White);
}

#[test]
fn can_play_only_while_column_not_full() {
    let mut position = Position::new();
    let column = Coordinates::new(2, 1);
    for _ in 0..4 {
        assert!(position.can_play(column));
        position = position.play(column);
        position = position.play(Coordinates::new(0, 0));
    }
    assert!(!position.can_play(column));
    assert!(position.can_play(Coordinates::new(2, 2)));
    assert!(position.can_play(Coordinates::new(1, 1)));
}

#[test]
fn active_player_alternates_every_ply() {
    let mut position = Position::new();
    assert_eq!(position.active_player, Player::White);
    position = position.play(Coordinates::new(1, 2));
    assert_eq!(position.active_player, Player::Black);
    position = position.play(Coordinates::new(1, 2));
    assert_eq!(position.active_player, Player::White);
    position = position.play(Coordinates::new(2, 2));
    assert_eq!(position.active_player, Player::Black);
}

#[test]
fn negation_swaps_win_and_loss_and_fixes_draw() {
    assert_eq!(Evaluation::Win.negate(), Evaluation::Loss);
    assert_eq!(Evaluation::Loss.negate(), Evaluation::Win);
    assert_eq!(Evaluation::Draw.negate(), Evaluation::Draw);
    assert_eq!(
        Evaluation::HeuristicScore(17).negate(),
        Evaluation::HeuristicScore(-17)
    );
}

#[test]
fn negation_is_an_involution() {
    let samples = [
        Evaluation::Win,
        Evaluation::Loss,
        Evaluation::Draw,
        Evaluation::HeuristicScore(0),
        Evaluation::HeuristicScore(23),
        Evaluation::HeuristicScore(-228),
    ];
    for e in samples {
        assert_eq!(e.negate().negate(), e);
    }
}

#[test]
fn negation_reverses_the_order() {
    let ascending = [
        Evaluation::Loss,
        Evaluation::HeuristicScore(-9),
        Evaluation::HeuristicScore(-1),
        Evaluation::Draw,
        Evaluation::HeuristicScore(0),
        Evaluation::HeuristicScore(4),
        Evaluation::Win,
    ];
    for i in 0..ascending.len() {
        for j in i..ascending.len() {
            let a = ascending[i];
            let b = ascending[j];
            assert!(a.order_key() <= b.order_key());
            assert!(b.negate().order_key() <= a.negate().order_key());
        }
    }
}

#[test]
fn draw_ranks_like_a_zero_score() {
    assert_eq!(Evaluation::Draw.order_key(), Evaluation::HeuristicScore(0).order_key());
    assert!(Evaluation::Draw.order_key() > Evaluation::HeuristicScore(-1).order_key());
    assert!(Evaluation::Draw.order_key() < Evaluation::HeuristicScore(1).order_key());
    assert!(Evaluation::Win.order_key() > Evaluation::HeuristicScore(3).order_key());
    assert!(Evaluation::Loss.order_key() < Evaluation::HeuristicScore(-3).order_key());
}

#[test]
fn completed_row_evaluates_to_loss_for_the_mover() {
    // White fills the floor-0 line of rank 0 across all files.
    let position = play_all(&[(0, 0), (0, 1), (1, 0), (1, 1), (2, 0), (2, 1), (3, 0)]);
    assert_eq!(position.active_player, Player::Black);
    assert_eq!(position.get_static_evaluation(), Evaluation::Loss);
    assert!(position.is_terminal());
}

#[test]
fn completed_column_evaluates_to_loss_for_the_mover() {
    // White stacks four pieces in column (0, 0).
    let position = play_all(&[(0, 0), (1, 1), (0, 0), (2, 1), (0, 0), (3, 1), (0, 0)]);
    assert_eq!(position.get_static_evaluation(), Evaluation::Loss);
    assert!(position.is_terminal());
}

#[test]
fn completed_space_diagonal_evaluates_to_loss_for_the_mover() {
    // White occupies (floor m, file m, rank m) for m in 0..4.
    let position = play_all(&[
        (0, 0),
        (1, 1),
        (1, 1),
        (2, 2),
        (3, 1),
        (2, 2),
        (2, 2),
        (3, 3),
        (0, 1),
        (3, 3),
        (1, 2),
        (3, 3),
        (3, 3),
    ]);
    assert_eq!(position.get_static_evaluation(), Evaluation::Loss);
    assert!(position.is_terminal());
}

#[test]
fn full_board_without_a_line_is_a_draw() {
    let game: [(usize, usize); 64] = [
        (1, 3),
        (1, 1),
        (0, 1),
        (2, 0),
        (2, 3),
        (0, 1),
        (0, 0),
        (0, 1),
        (2, 0),
        (3, 3),
        (0, 1),
        (0, 2),
        (0, 3),
        (1, 2),
        (3, 1),
        (0, 0),
        (1, 0),
        (2, 3),
        (3, 0),
        (1, 1),
        (2, 2),
        (2, 2),
        (2, 0),
        (3, 1),
        (2, 3),
        (0, 2),
        (2, 0),
        (1, 3),
        (1, 2),
        (1, 2),
        (1, 3),
        (0, 2),
        (1, 2),
        (3, 0),
        (2, 1),
        (1, 1),
        (2, 2),
        (2, 2),
        (0, 3),
        (0, 0),
        (2, 3),
        (1, 3),
        (0, 0),
        (3, 0),
        (1, 1),
        (1, 0),
        (3, 1),
        (3, 1),
        (3, 3),
        (3, 0),
        (3, 2),
        (1, 0),
        (2, 1),
        (1, 0),
        (0, 2),
        (3, 2),
        (3, 2),
        (3, 2),
        (0, 3),
        (2, 1),
        (2, 1),
        (3, 3),
        (3, 3),
        (0, 3),
    ];
    let mut position = Position::new();
    for (file, rank) in game {
        assert!(!position.is_terminal());
        position = position.play(Coordinates::new(file, rank));
    }
    assert_eq!(position.get_static_evaluation(), Evaluation::Draw);
    assert!(position.is_terminal());
}

#[test]
fn static_evaluation_is_deterministic() {
    let position = play_all(&[(0, 0), (0, 3), (3, 0), (3, 3), (1, 0), (2, 0)]);
    let first = position.get_static_evaluation();
    let second = position.get_static_evaluation();
    assert_eq!(first, second);
    assert_eq!(position.get_static_evaluation(), Evaluation::HeuristicScore(-2));
}

#[test]
fn move_ordering_tries_least_favorable_children_first() {
    let position = Position::new();
    let moves = position.generate_moves();
    let listed: Vec<(usize, usize)> = moves.iter().map(|c| (c.file, c.rank)).collect();
    // the four corner columns touch 7 lines each (child score -7), the
    // other twelve touch 4 (child score -4); ties keep file-major order
    let expected = vec![
        (0, 0),
        (0, 3),
        (3, 0),
        (3, 3),
        (0, 1),
        (0, 2),
        (1, 0),
        (1, 1),
        (1, 2),
        (1, 3),
        (2, 0),
        (2, 1),
        (2, 2),
        (2, 3),
        (3, 1),
        (3, 2),
    ];
    assert_eq!(listed, expected);
}

#[test]
fn move_ordering_is_ascending_in_child_evaluation() {
    let position = play_all(&[(0, 0), (0, 3), (3, 0), (3, 3), (1, 0), (2, 0)]);
    let moves = position.generate_moves();
    assert_eq!(moves.len(), 16);
    let mut previous: Option<i32> = None;
    for c in moves.iter() {
        let key = position.play(*c).get_static_evaluation().order_key();
        if let Some(p) = previous {
            assert!(p <= key);
        }
        previous = Some(key);
    }
}
