use neutreeko::ai::{best_move_from_vec, best_moves_from_vec};
use neutreeko::logic::{Board, Color, Direction, Pawn, Position};
use neutreeko::mcts::{playout_with, position_direction_to_index, time_budget, ChildStats, MCTSGeneric, TrivialPolicy, MCTS, VALUE_SCALE};
use neutreeko::minmax::{BoardEvaluation, MinMax};
use neutreeko::platform::NativePlatform;

fn pawn(color: Color, row: usize, column: usize) -> Pawn {
    Pawn::new(color, Position { row, column })
}

fn first_child(_parent_visits: u64, _children: Vec<ChildStats>) -> usize {
    0
}

fn is_legal(board: &Board, m: (usize, Direction)) -> bool {
    board
        .get_all_valid_directions_and_resulting_boards()
        .iter()
        .any(|x| x.0 == m.0 && x.1 == m.1)
}

/// Green wins at once by sliding pawn 2 up to (0,2).
fn green_wins_in_one() -> Board {
    Board::new(
        5,
        5,
        vec![
            pawn(Color::Green, 0, 0),
            pawn(Color::Green, 0, 1),
            pawn(Color::Green, 4, 2),
            pawn(Color::Yellow, 4, 0),
            pawn(Color::Yellow, 4, 4),
            pawn(Color::Yellow, 2, 4),
        ],
        Some(Color::Green),
    )
}

#[test]
fn mcts_with_no_time_still_moves() {
    let board = Board::default_new();
    let mut engine = MCTSGeneric::new(Color::Green, 0, TrivialPolicy::new());
    assert_eq!(engine.time_allowed_ms, 0);
    let m = engine.ai_play::<NativePlatform, _>(&board, &first_child);
    let m = m.expect("a move");
    assert!(is_legal(&board, m));
}

#[test]
fn mcts_declines_when_not_its_turn() {
    let board = Board::default_new();
    let mut engine = MCTSGeneric::new(Color::Yellow, 1, TrivialPolicy::new());
    assert!(engine.ai_play::<NativePlatform, _>(&board, &first_child).is_none());
}

#[test]
fn mcts_budget_grows_with_cube_of_difficulty() {
    assert_eq!(MCTSGeneric::new(Color::Green, 1, TrivialPolicy::new()).time_allowed_ms, 50);
    assert_eq!(MCTSGeneric::new(Color::Green, 2, TrivialPolicy::new()).time_allowed_ms, 400);
    assert_eq!(MCTSGeneric::new(Color::Green, 3, TrivialPolicy::new()).time_allowed_ms, 1350);
    assert_eq!(MCTSGeneric::new(Color::Green, 1_000_000, TrivialPolicy::new()).time_allowed_ms, u64::MAX);
    assert_eq!(time_budget(700_000), 17_150_000_000_000_000_000);
}

#[test]
fn mcts_root_visits_add_up() {
    let board = Board::default_new();
    let mut engine = MCTSGeneric::new(Color::Green, 1, TrivialPolicy::new());
    let options = engine.give_all_options::<NativePlatform, _>(&board, &first_child);
    let total: u64 = options.iter().map(|o| o.0).sum();
    assert!(engine.iterations >= 1);
    assert_eq!(total, engine.iterations);
    assert_eq!(engine.nodes[0].visits, engine.iterations);
    for o in options.iter() {
        assert!(is_legal(&board, (o.1, o.2)));
    }
}

#[test]
fn mcts_finds_the_root_by_hash() {
    let board = Board::default_new();
    let mut engine = MCTSGeneric::new(Color::Green, 0, TrivialPolicy::new());
    let _ = engine.give_all_options::<NativePlatform, _>(&board, &first_child);
    assert_eq!(engine.find_node(board.get_hash()), Some(0));
    let other = Board::new(5, 5, green_wins_in_one().pawns, Some(Color::Yellow));
    assert_eq!(engine.find_node(other.get_hash()), None);
}

#[test]
fn terminal_node_scores_a_loss() {
    let mut won = green_wins_in_one();
    assert!(won.move_pawn_until_blocked(2, &Direction::Up));
    let mut engine = MCTSGeneric::new(Color::Yellow, 0, TrivialPolicy::new());
    let options = engine.give_all_options::<NativePlatform, _>(&won, &first_child);
    assert!(options.is_empty());
    assert!(engine.nodes[0].is_terminal());
    assert!(engine.nodes[0].is_fully_expanded());
    assert_eq!(engine.rollout::<NativePlatform>(0), -VALUE_SCALE);
}

#[test]
fn minmax_takes_the_win() {
    let board = green_wins_in_one();
    let mut engine = MinMax::new(Color::Green, 2);
    let (value, options) = engine.give_all_options(&board);
    assert_eq!(value, 99);
    let winning = options.iter().find(|o| o.1 == 2 && o.2 == Direction::Up).expect("move");
    assert_eq!(winning.0, 99);
    assert_eq!(engine.ai_play::<NativePlatform>(&board), Some((2, Direction::Up)));
}

#[test]
fn minmax_depth_zero_still_answers() {
    let board = green_wins_in_one();
    let mut engine = MinMax::new(Color::Green, 0);
    assert_eq!(engine.depth, 1);
    let (value, options) = engine.give_all_options(&board);
    assert_eq!(value, 99);
    assert_eq!(options.len(), board.get_all_valid_directions_and_resulting_boards().len());
    assert_eq!(engine.ai_play::<NativePlatform>(&board), Some((2, Direction::Up)));
}

#[test]
fn minmax_prefers_the_slower_loss() {
    // Yellow to move under threat; the engine must pick a move of greatest minimax value.
    let board = Board::new(
        5,
        5,
        vec![
            pawn(Color::Green, 0, 0),
            pawn(Color::Green, 0, 1),
            pawn(Color::Green, 4, 2),
            pawn(Color::Yellow, 4, 0),
            pawn(Color::Yellow, 4, 4),
            pawn(Color::Yellow, 4, 3),
        ],
        Some(Color::Yellow),
    );
    let mut engine = MinMax::new(Color::Yellow, 2);
    let m = engine.ai_play::<NativePlatform>(&board).expect("a move");
    let first = engine.links[0].first_child;
    let end = engine.links[0].end_child;
    let values: Vec<i64> = (first..end).map(|c| engine.search_value(c, 1, false)).collect();
    let best = *values.iter().max().unwrap();
    let chosen = (first..end)
        .position(|c| engine.links[c].pawn_index == m.0 && engine.links[c].direction == m.1)
        .unwrap();
    assert_eq!(values[chosen], best);
}

#[test]
fn minmax_pruned_value_matches_full_search() {
    let board = Board::default_new();
    let mut engine = MinMax::new(Color::Green, 3);
    let (_, options) = engine.give_all_options(&board);
    assert_eq!(options.len(), board.get_all_valid_directions_and_resulting_boards().len());
    let root_children = engine.links[0].first_child..engine.links[0].end_child;
    for c in root_children {
        let pruned = engine.search_value(c, 2, false);
        let full = full_minimax(&engine, c, 2, false);
        assert_eq!(pruned, full);
    }
}

fn full_minimax(engine: &MinMax, n: usize, depth: usize, maximizing: bool) -> i64 {
    let l = engine.links[n];
    if depth == 0 || l.end_child <= l.first_child {
        return engine.evaluations[n].score;
    }
    let values = (l.first_child..l.end_child).map(|c| full_minimax(engine, c, depth - 1, !maximizing));
    if maximizing { values.max().unwrap() } else { values.min().unwrap() }
}

#[test]
fn minmax_weights_when_every_move_loses() {
    // Yellow to move; whatever it does, Green completes a row next.
    let board = Board::new(
        5,
        5,
        vec![
            pawn(Color::Green, 0, 0),
            pawn(Color::Green, 0, 1),
            pawn(Color::Green, 4, 2),
            pawn(Color::Yellow, 4, 0),
            pawn(Color::Yellow, 4, 4),
            pawn(Color::Yellow, 4, 3),
        ],
        Some(Color::Yellow),
    );
    let mut engine = MinMax::new(Color::Yellow, 2);
    let (value, options) = engine.give_all_options(&board);
    assert!(!options.is_empty());
    if options.iter().all(|o| o.0 == 1) {
        assert_eq!(value, 0);
    }
}

#[test]
fn board_evaluation_scores() {
    let mut won = green_wins_in_one();
    assert!(won.move_pawn_until_blocked(2, &Direction::Up));
    assert_eq!(BoardEvaluation::new(won.clone(), Color::Green, 3).score, 97);
    assert_eq!(BoardEvaluation::new(won, Color::Yellow, 3).score, -97);
    assert_eq!(BoardEvaluation::new(Board::default_new(), Color::Green, 3).score, 0);
}

#[test]
fn best_moves_keep_all_ties() {
    let options = vec![(3, 0, Direction::Up), (5, 1, Direction::Down), (5, 2, Direction::Left), (1, 3, Direction::Right)];
    assert_eq!(best_moves_from_vec(&options), vec![(1, Direction::Down), (2, Direction::Left)]);
    let m = best_move_from_vec::<NativePlatform>(&options);
    assert!(m == (1, Direction::Down) || m == (2, Direction::Left));
    assert!(best_moves_from_vec(&vec![]).is_empty());
}

#[test]
fn estimator_index_layout() {
    assert_eq!(position_direction_to_index((0, 0), Direction::Up), 0);
    assert_eq!(position_direction_to_index((0, 1), Direction::Down), 9);
    assert_eq!(position_direction_to_index((4, 4), Direction::DownRight), 199);
    assert_eq!(position_direction_to_index((2, 3), Direction::Left), 106);
}

#[test]
fn random_playout_engine_moves() {
    let board = Board::default_new();
    let mut engine = MCTS::new(Color::Green, 0);
    assert_eq!(*engine.color(), Color::Green);
    let m = engine.ai_play::<NativePlatform, _>(&board, &first_child).expect("a move");
    assert!(is_legal(&board, m));
    let visits = engine.mcts.nodes[0].visits;
    assert_eq!(visits, engine.mcts.iterations);
}

#[test]
fn playout_follows_the_draws() {
    let board = Board::default_new();
    // No draws: the playout stops at once on an undecided board.
    assert_eq!(playout_with(&board, Color::Green, &vec![]), 0);
    // Green's first move is pawn 0 down; then Yellow and Green keep picking the first move.
    let draws = vec![0usize; 40];
    let mut b = board.clone();
    let mut played = 0;
    while b.next_player.is_some() && played < 40 {
        let moves = b.get_all_valid_directions_and_resulting_boards();
        if moves.is_empty() {
            break;
        }
        b = moves[0].2.clone();
        played += 1;
    }
    let expected = match b.winner() {
        Some(Color::Green) => VALUE_SCALE,
        Some(Color::Yellow) => -VALUE_SCALE,
        None => 0,
    };
    assert_eq!(playout_with(&board, Color::Green, &draws), expected);
    let won = {
        let mut w = green_wins_in_one();
        assert!(w.move_pawn_until_blocked(2, &Direction::Up));
        w
    };
    assert_eq!(playout_with(&won, Color::Yellow, &vec![3, 1]), -VALUE_SCALE);
    assert_eq!(playout_with(&green_wins_in_one(), Color::Green, &vec![5]),
        if green_wins_in_one().get_all_valid_directions_and_resulting_boards()[5].2.winner() == Some(Color::Green) { VALUE_SCALE } else { 0 });
}
