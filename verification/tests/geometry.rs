use rush_hour::model::{Board, Car, CarPosition, Direction, Game, Orientation};
use rush_hour::replay::{map_cars, move_car};

fn board_from(rows: [[u8; 6]; 6]) -> Board {
    rows.iter().map(|r| r.to_vec()).collect()
}

fn sample_board() -> Board {
    board_from([
        [0, 0, 4, 2, 2, 2],
        [0, 0, 4, 0, 0, 0],
        [1, 1, 4, 0, 0, 0],
        [5, 0, 0, 6, 6, 3],
        [5, 0, 0, 0, 7, 3],
        [8, 8, 8, 0, 7, 3],
    ])
}

#[test]
fn winner_detects_the_exit_anchor() {
    let state = vec![CarPosition { id: 1, position: (4, 2) }];
    assert!(Car::winner(&state));
    let not_there = vec![CarPosition { id: 1, position: (3, 2) }];
    assert!(!Car::winner(&not_there));
    let wrong_vehicle = vec![CarPosition { id: 2, position: (4, 2) }];
    assert!(!Car::winner(&wrong_vehicle));
}

#[test]
fn get_end_returns_the_far_cell() {
    let car = Car { id: 2, length: 3, orientation: Orientation::Horizontal };
    let pos = CarPosition { id: 2, position: (1, 2) };
    assert_eq!(Car::get_end(&car, &pos), (3, 2));
    let vcar = Car { id: 3, length: 2, orientation: Orientation::Vertical };
    let vpos = CarPosition { id: 3, position: (4, 0) };
    assert_eq!(Car::get_end(&vcar, &vpos), (4, 1));
}

#[test]
fn get_positions_lists_the_span_anchor_first() {
    let car = Car { id: 2, length: 3, orientation: Orientation::Horizontal };
    let pos = CarPosition { id: 2, position: (1, 2) };
    assert_eq!(Car::get_positions(&car, &pos), vec![(1, 2), (2, 2), (3, 2)]);
    let vcar = Car { id: 3, length: 2, orientation: Orientation::Vertical };
    let vpos = CarPosition { id: 3, position: (4, 0) };
    assert_eq!(Car::get_positions(&vcar, &vpos), vec![(4, 0), (4, 1)]);
}

#[test]
fn orientation_and_length_derive_from_the_board() {
    let board = sample_board();
    let from2 = CarPosition { id: 2, position: (3, 0) };
    assert_eq!(Car::get_orientation_from_board(&board, &from2), Orientation::Horizontal);
    assert_eq!(Car::get_size_from_board(&board, &from2), 3);
    let from4 = CarPosition { id: 4, position: (2, 0) };
    assert_eq!(Car::get_orientation_from_board(&board, &from4), Orientation::Vertical);
    assert_eq!(Car::get_size_from_board(&board, &from4), 3);
    let from1 = CarPosition { id: 1, position: (0, 2) };
    assert_eq!(Car::get_orientation_from_board(&board, &from1), Orientation::Horizontal);
    assert_eq!(Car::get_size_from_board(&board, &from1), 2);
}

#[test]
fn will_intersect_tests_span_membership() {
    let (game, _state) = Game::load(sample_board()).unwrap();
    // Vehicle 4 is vertical at (2, 0) with length 3.
    let v4 = CarPosition { id: 4, position: (2, 0) };
    assert!(game.will_intersect(v4, (2, 0)));
    assert!(game.will_intersect(v4, (2, 2)));
    assert!(!game.will_intersect(v4, (2, 3)));
    assert!(!game.will_intersect(v4, (3, 1)));
}

#[test]
fn score_move_rewards_the_target_vehicle_rightward() {
    assert_eq!(Game::score_move(&(1, Direction::Right)), 2);
    assert_eq!(Game::score_move(&(1, Direction::Left)), 0);
    assert_eq!(Game::score_move(&(1, Direction::Up)), 1);
    assert_eq!(Game::score_move(&(2, Direction::Right)), 1);
    assert_eq!(Game::score_move(&(7, Direction::Down)), 1);
}

#[test]
fn render_reproduces_the_loaded_board() {
    let (game, state) = Game::load(sample_board()).unwrap();
    let grid = game.render(&state);
    assert_eq!(grid, sample_board());
}

#[test]
fn map_cars_lists_each_vehicle_with_its_cells() {
    let cars = map_cars(sample_board()).expect("the sample board is loadable");
    assert_eq!(cars.len(), 8);
    assert_eq!(cars[0].id, 1);
    assert_eq!(cars[0].positions, vec![(0, 2), (1, 2)]);
    assert_eq!(cars[0].orientation, Orientation::Horizontal);
    assert_eq!(cars[3].id, 4);
    assert_eq!(cars[3].positions, vec![(2, 0), (2, 1), (2, 2)]);
    assert_eq!(cars[3].orientation, Orientation::Vertical);
}

#[test]
fn map_cars_rejects_an_unloadable_board() {
    let mut rows = [[0u8; 6]; 6];
    rows[0][0] = 1;
    rows[0][1] = 1;
    rows[5][5] = 3;
    assert!(map_cars(board_from(rows)).is_none());
}

#[test]
fn move_car_applies_a_legal_move_to_the_grid() {
    let mut board = sample_board();
    let mut cars = map_cars(sample_board()).unwrap();
    // Vehicle 3 is vertical at (5, 3); sliding it up frees the bottom-right
    // cell and occupies (5, 2).
    let outcome = move_car(&mut board, &mut cars, (3, Direction::Up), 1);
    assert!(outcome.is_ok());
    assert_eq!(board[2][5], 3);
    assert_eq!(board[5][5], 0);
    assert_eq!(cars[2].positions, vec![(5, 2), (5, 3), (5, 4)]);
}

#[test]
fn move_car_reports_an_illegal_move_with_its_index() {
    let mut board = sample_board();
    let mut cars = map_cars(sample_board()).unwrap();
    let before = board.clone();
    // Vehicle 1 is flush against the left edge.
    let err = move_car(&mut board, &mut cars, (1, Direction::Left), 7).unwrap_err();
    assert_eq!(err.play, 7);
    assert_eq!(err.step, (1, Direction::Left));
    assert_eq!(board, before);

    // Vehicle 1 cannot slide right either: vehicle 4 blocks the cell.
    let err = move_car(&mut board, &mut cars, (1, Direction::Right), 8).unwrap_err();
    assert_eq!(err.play, 8);

    // A vertical vehicle accepts no horizontal move.
    let err = move_car(&mut board, &mut cars, (4, Direction::Left), 9).unwrap_err();
    assert_eq!(err.step, (4, Direction::Left));

    // An id that no vehicle bears is rejected.
    assert!(move_car(&mut board, &mut cars, (0, Direction::Up), 10).is_err());
}
