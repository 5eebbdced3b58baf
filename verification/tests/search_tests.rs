use qubic::evaluation::analyse;
use qubic::position::Coordinates;
use qubic::position::Evaluation;
use qubic::position::Position;

fn play_all(seq: &[(usize, usize)]) -> Position {
    let mut position = Position::new();
    for &(file, rank) in seq {
        position = position.play(Coordinates::new(file, rank));
    }
    position
}

/// Full-width negamax without any pruning, as a reference.
fn negamax_reference(position: &Position, depth: u8) -> Evaluation {
    let static_evaluation = position.get_static_evaluation();
    match static_evaluation {
        Evaluation::HeuristicScore(_) => {}
        terminal_eval => return terminal_eval,
    }
    if depth == 0 {
        return static_evaluation;
    }
    let mut best = Evaluation::Loss;
    for coordinates in position.generate_moves() {
        let child = position.play(coordinates);
        let value = negamax_reference(&child, depth - 1).negate();
        if value.order_key() >= best.order_key() {
            best = value;
        }
    }
    best
}

/// The move and value a full-width root scan reports.
fn root_reference(position: &Position, depth: u8) -> (Evaluation, Coordinates) {
    let mut best = Evaluation::Loss;
    let mut best_move: Option<Coordinates> = None;
    for coordinates in position.generate_moves() {
        let child = position.play(coordinates);
        let value = negamax_reference(&child, depth).negate();
        if best_move.is_none() {
            best_move = Some(coordinates);
        }
        if value.order_key() > best.order_key() {
            best = value;
            best_move = Some(coordinates);
        }
    }
    (best, best_move.unwrap())
}

fn assert_matches_reference(position: &Position, depth: u8) {
    let report = analyse(position, depth);
    let (value, chosen) = root_reference(position, depth);
    assert_eq!(report.evaluation.order_key(), value.order_key());
    if report.evaluation.order_key() != 0 {
        assert_eq!(report.evaluation, value);
    }
    assert_eq!(report.best_move.file, chosen.file);
    assert_eq!(report.best_move.rank, chosen.rank);
}

#[test]
fn pruned_search_matches_unpruned_from_the_empty_board() {
    let position = Position::new();
    assert_matches_reference(&position, 0);
    assert_matches_reference(&position, 1);
    assert_matches_reference(&position, 2);
}

#[test]
fn pruned_search_matches_unpruned_mid_game() {
    let position = play_all(&[(0, 0), (0, 3), (3, 0), (3, 3), (1, 0), (2, 0)]);
    assert_matches_reference(&position, 0);
    assert_matches_reference(&position, 1);
    assert_matches_reference(&position, 2);
}

#[test]
fn pruned_search_matches_unpruned_with_threats_on_the_board() {
    // White and Black each hold three of a floor-0 line.
    let position = play_all(&[(0, 0), (0, 1), (1, 0), (1, 1), (2, 0), (2, 1)]);
    assert_matches_reference(&position, 1);
    assert_matches_reference(&position, 2);
    assert_matches_reference(&position, 3);
}

#[test]
fn search_finds_the_immediate_win() {
    // White completes rank 0 of floor 0 by playing file 3.
    let position = play_all(&[(0, 0), (0, 1), (1, 0), (1, 1), (2, 0), (2, 1)]);
    let report = analyse(&position, 1);
    assert_eq!(report.evaluation, Evaluation::Win);
    assert_eq!(report.best_move.file, 3);
    assert_eq!(report.best_move.rank, 0);
}

#[test]
fn search_counts_the_root_and_each_probed_child() {
    let position = Position::new();
    let report = analyse(&position, 0);
    // the root plus one call per legal move
    assert_eq!(report.num_positions_traversed, 17);
    assert!(position.can_play(report.best_move));
}
