use rush_hour::board::LoadError;
use rush_hour::model::{Board, Direction, Game};
use rush_hour::replay::move_car;
use rush_hour::search::SearchOutcome;

fn board_from(rows: [[u8; 6]; 6]) -> Board {
    rows.iter().map(|r| r.to_vec()).collect()
}

fn sample_board() -> Board {
    board_from([
        [0, 0, 4, 2, 2, 2],
        [0, 0, 4, 0, 0, 0],
        [1, 1, 4, 0, 0, 0],
        [5, 0, 0, 6, 6, 3],
        [5, 0, 0, 0, 7, 3],
        [8, 8, 8, 0, 7, 3],
    ])
}

#[test]
fn sample_board_loads() {
    let loaded = Game::load(sample_board());
    let (game, state) = loaded.expect("the sample board is loadable");
    assert_eq!(game.cars.len(), 8);
    assert_eq!(state.len(), 8);
    assert_eq!(state[0].id, 1);
    assert_eq!(state[0].position, (0, 2));
    assert_eq!(game.cars[0].length, 2);
}

#[test]
fn sample_board_solution_replays_to_the_exit() {
    let (game, state) = Game::load(sample_board()).unwrap();
    let solution = game.solve(state).expect("the sample board has a solution");
    assert!(!solution.is_empty());

    // Replay the solution through the independent validator.
    let mut cars = rush_hour::replay::map_cars(sample_board()).unwrap();
    let mut board = sample_board();
    let mut play: u32 = 0;
    for step in &solution {
        play += 1;
        let outcome = move_car(&mut board, &mut cars, *step, play);
        assert!(outcome.is_ok(), "illegal move at play {play}");
    }
    // The target vehicle ends on the exit cells (4, 2) and (5, 2).
    assert_eq!(board[2][4], 1);
    assert_eq!(board[2][5], 1);
}

#[test]
fn already_solved_board_returns_the_empty_sequence() {
    let rows = [
        [0, 0, 0, 0, 0, 0],
        [0, 0, 0, 0, 0, 0],
        [0, 0, 0, 0, 1, 1],
        [0, 0, 0, 0, 0, 0],
        [0, 0, 0, 0, 0, 0],
        [0, 0, 0, 0, 0, 0],
    ];
    let (game, state) = Game::load(board_from(rows)).unwrap();
    let solution = game.solve(state).expect("an already-solved board has a solution");
    assert!(solution.is_empty());
}

#[test]
fn fully_jammed_board_has_no_solution() {
    // Three horizontal vehicles fill the exit row wall to wall: no vehicle
    // has any legal move, so the search exhausts at once.
    let rows = [
        [0, 0, 0, 0, 0, 0],
        [0, 0, 0, 0, 0, 0],
        [1, 1, 2, 2, 3, 3],
        [0, 0, 0, 0, 0, 0],
        [0, 0, 0, 0, 0, 0],
        [0, 0, 0, 0, 0, 0],
    ];
    let (game, state) = Game::load(board_from(rows)).unwrap();
    assert!(game.solve(state).is_none());
}

#[test]
fn jammed_board_exhausts_rather_than_running_out_of_budget() {
    let rows = [
        [0, 0, 0, 0, 0, 0],
        [0, 0, 0, 0, 0, 0],
        [1, 1, 2, 2, 3, 3],
        [0, 0, 0, 0, 0, 0],
        [0, 0, 0, 0, 0, 0],
        [0, 0, 0, 0, 0, 0],
    ];
    let (game, state) = Game::load(board_from(rows)).unwrap();
    // One expansion pops the initial state and finds no successors.
    assert!(matches!(game.solve_with_budget(state, 2), SearchOutcome::Exhausted));
}

#[test]
fn zero_budget_is_inconclusive() {
    let (game, state) = Game::load(sample_board()).unwrap();
    assert!(matches!(game.solve_with_budget(state, 0), SearchOutcome::OutOfBudget));
}

#[test]
fn tiny_budget_is_inconclusive_on_an_unsolved_board() {
    let (game, state) = Game::load(sample_board()).unwrap();
    assert!(matches!(game.solve_with_budget(state, 1), SearchOutcome::OutOfBudget));
}

#[test]
fn solved_board_needs_only_one_expansion() {
    let rows = [
        [0, 0, 0, 0, 0, 0],
        [0, 0, 0, 0, 0, 0],
        [0, 0, 0, 0, 1, 1],
        [0, 0, 0, 0, 0, 0],
        [0, 0, 0, 0, 0, 0],
        [0, 0, 0, 0, 0, 0],
    ];
    let (game, state) = Game::load(board_from(rows)).unwrap();
    match game.solve_with_budget(state, 1) {
        SearchOutcome::Solved(history) => assert!(history.is_empty()),
        other => panic!("expected a solution, got {other:?}"),
    }
}

#[test]
fn boundary_guards_hold_in_generated_moves() {
    // Vehicle 1 is horizontal with anchor x = 0; vehicle 2 is vertical of
    // length 3 with anchor y = 3, so its span ends at the bottom row.
    let rows = [
        [0, 0, 0, 0, 0, 0],
        [0, 0, 0, 0, 0, 0],
        [1, 1, 0, 0, 0, 0],
        [2, 0, 0, 0, 0, 0],
        [2, 0, 0, 0, 0, 0],
        [2, 0, 0, 0, 0, 0],
    ];
    let (game, state) = Game::load(board_from(rows)).unwrap();
    let moves = game.get_moves(&state);
    assert!(!moves.is_empty());
    for (_, step) in &moves {
        assert!(*step != (1, Direction::Left), "vehicle 1 is flush against the left edge");
        assert!(*step != (2, Direction::Down), "vehicle 2 is flush against the bottom edge");
    }
    // The only legal moves here: vehicle 1 slides right, vehicle 2 cannot
    // slide up because vehicle 1 blocks its head.
    assert_eq!(moves.len(), 1);
    assert_eq!(moves[0].1, (1, Direction::Right));
}

#[test]
fn successors_differ_in_exactly_one_anchor() {
    let (game, state) = Game::load(sample_board()).unwrap();
    let moves = game.get_moves(&state);
    assert!(!moves.is_empty());
    for (succ, step) in &moves {
        assert_eq!(succ.len(), state.len());
        let mut changed = 0;
        for i in 0..state.len() {
            if succ[i].position != state[i].position {
                changed += 1;
                assert_eq!(succ[i].id, step.0);
            }
            assert_eq!(succ[i].id, state[i].id);
        }
        assert_eq!(changed, 1);
    }
}

#[test]
fn moves_list_each_descriptor_at_most_once() {
    let (game, state) = Game::load(sample_board()).unwrap();
    let moves = game.get_moves(&state);
    for i in 0..moves.len() {
        for j in (i + 1)..moves.len() {
            assert_ne!(moves[i].1, moves[j].1);
        }
    }
}

#[test]
fn moves_are_ordered_by_ascending_score() {
    let (game, state) = Game::load(sample_board()).unwrap();
    let moves = game.get_moves(&state);
    let mut last_score = 0;
    for (_, step) in &moves {
        let score = Game::score_move(step);
        assert!(score >= last_score);
        last_score = score;
    }
}

#[test]
fn load_rejects_wrong_dimensions() {
    let five_rows: Board = vec![vec![0; 6]; 5];
    assert_eq!(Game::load(five_rows), Err(LoadError::BadDimensions));
    let mut ragged: Board = vec![vec![0; 6]; 6];
    ragged[3] = vec![0; 7];
    assert_eq!(Game::load(ragged), Err(LoadError::BadDimensions));
}

#[test]
fn load_rejects_an_id_above_eight() {
    let mut rows = [[0u8; 6]; 6];
    rows[2][0] = 1;
    rows[2][1] = 1;
    rows[4][4] = 9;
    assert_eq!(Game::load(board_from(rows)), Err(LoadError::IdOutOfRange));
}

#[test]
fn load_rejects_an_id_gap() {
    let rows = [
        [0, 0, 0, 0, 0, 0],
        [0, 0, 0, 0, 0, 0],
        [1, 1, 0, 3, 3, 0],
        [0, 0, 0, 0, 0, 0],
        [0, 0, 0, 0, 0, 0],
        [0, 0, 0, 0, 0, 0],
    ];
    assert_eq!(Game::load(board_from(rows)), Err(LoadError::MalformedGeometry));
}

#[test]
fn load_rejects_a_bent_vehicle() {
    let rows = [
        [0, 0, 0, 2, 0, 0],
        [0, 0, 0, 2, 2, 0],
        [1, 1, 0, 0, 0, 0],
        [0, 0, 0, 0, 0, 0],
        [0, 0, 0, 0, 0, 0],
        [0, 0, 0, 0, 0, 0],
    ];
    assert_eq!(Game::load(board_from(rows)), Err(LoadError::MalformedGeometry));
}

#[test]
fn load_rejects_a_single_cell_vehicle() {
    let rows = [
        [0, 0, 0, 0, 0, 0],
        [0, 0, 0, 0, 0, 0],
        [1, 1, 0, 0, 0, 0],
        [0, 0, 0, 0, 0, 0],
        [0, 0, 0, 0, 0, 0],
        [0, 0, 0, 0, 0, 2],
    ];
    assert_eq!(Game::load(board_from(rows)), Err(LoadError::MalformedGeometry));
}

#[test]
fn loading_twice_yields_identical_results() {
    let (game1, state1) = Game::load(sample_board()).unwrap();
    let (game2, state2) = Game::load(sample_board()).unwrap();
    assert_eq!(game1.cars, game2.cars);
    assert_eq!(state1, state2);
}
