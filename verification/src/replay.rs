//! An independent replay validator.
//!
//! The validator re-simulates a move sequence directly against the grid,
//! one vehicle and one cell at a time, checking the same boundary and
//! collision rules as the move generator. [`map_cars`] derives the
//! per-vehicle cell lists from a board; [`move_car`] applies one move to
//! the grid and the cell lists, or reports the offending move index and
//! descriptor. A driver replays a solution by calling [`move_car`] once
//! per step; [`move_car`] proves that a legal move keeps the grid and the
//! cell lists coherent, so the replay can continue.

use vstd::prelude::*;

use crate::board::{
    cell, cover_match, is_grid, lemma_geometry_at_anchor, lemma_load_deterministic,
    load_entry_ok, load_post, loadable, present,
};
use crate::model::{
    apply_step, cell_free, dest_cell, direction_fits, disjoint_cars, lemma_step_preserves_wf,
    moved_anchor, occupies, replay_ok, replay_result, spec_winner, step_ok, wf_entry, wf_state,
    Board, Car, CarPosition, Direction, Game, Orientation, Point, Step,
};

verus! {

/// One vehicle as the validator tracks it: its id, its orientation, and
/// the cells it occupies, anchor first.
#[derive(Debug, Clone, PartialEq, Eq)]
pub struct ReplayCar {
    pub id: u8,
    pub orientation: Orientation,
    pub positions: Vec<Point>,
}

/// The diagnostic for an illegal replayed move: the 1-based index of the
/// move in the sequence and the move descriptor itself.
#[derive(Debug, Clone, Copy, PartialEq, Eq)]
pub struct ReplayError {
    pub play: u32,
    pub step: Step,
}

/// The anchor cell of a tracked vehicle.
pub open spec fn first_cell(car: ReplayCar) -> Point {
    car.positions@[0]
}

/// The far-end cell of a tracked vehicle.
pub open spec fn last_cell(car: ReplayCar) -> Point {
    car.positions@[car.positions@.len() - 1]
}

/// A tracked vehicle agrees with the grid: its cells are in bounds,
/// consecutive along its orientation from the anchor, and each bears its
/// id on the board.
pub open spec fn replay_car_ok(b: Seq<Vec<u8>>, car: ReplayCar) -> bool {
    &&& car.id != 0
    &&& 1 <= car.positions@.len() <= 6
    &&& forall|k: int|
        0 <= k < car.positions@.len() ==> ((#[trigger] car.positions@[k]).0 < 6
            && car.positions@[k].1 < 6 && cell(
            b,
            car.positions@[k].0 as int,
            car.positions@[k].1 as int,
        ) == car.id)
    &&& forall|k: int|
        0 <= k < car.positions@.len() ==> #[trigger] car.positions@[k] == (match car.orientation {
            Orientation::Horizontal => (((first_cell(car).0 + k) as u8), first_cell(car).1),
            Orientation::Vertical => (first_cell(car).0, ((first_cell(car).1 + k) as u8)),
        })
}

/// Every tracked vehicle agrees with the grid and ids are distinct.
pub open spec fn replay_cars_ok(b: Seq<Vec<u8>>, cars: Seq<ReplayCar>) -> bool {
    &&& forall|i: int| 0 <= i < cars.len() ==> replay_car_ok(b, #[trigger] cars[i])
    &&& forall|i: int, j: int|
        0 <= i < cars.len() && 0 <= j < cars.len() && i != j ==> (#[trigger] cars[i]).id != (
        #[trigger] cars[j]).id
}

/// The cell a one-cell slide would newly occupy.
pub open spec fn step_dest_cell(car: ReplayCar, d: Direction) -> (int, int) {
    match d {
        Direction::Up => (first_cell(car).0 as int, first_cell(car).1 - 1),
        Direction::Down => (last_cell(car).0 as int, last_cell(car).1 + 1),
        Direction::Left => (first_cell(car).0 - 1, first_cell(car).1 as int),
        Direction::Right => (last_cell(car).0 + 1, last_cell(car).1 as int),
    }
}

/// The cell a one-cell slide would vacate.
pub open spec fn step_vacated_cell(car: ReplayCar, d: Direction) -> (int, int) {
    match d {
        Direction::Up => (last_cell(car).0 as int, last_cell(car).1 as int),
        Direction::Down => (first_cell(car).0 as int, first_cell(car).1 as int),
        Direction::Left => (last_cell(car).0 as int, last_cell(car).1 as int),
        Direction::Right => (first_cell(car).0 as int, first_cell(car).1 as int),
    }
}

/// The move slides the vehicle along its own axis, stays on the board,
/// and its destination cell is empty on the grid.
pub open spec fn car_step_ok(b: Seq<Vec<u8>>, car: ReplayCar, d: Direction) -> bool {
    &&& direction_fits(car.orientation, d)
    &&& (match d {
        Direction::Up => first_cell(car).1 > 0,
        Direction::Down => last_cell(car).1 < 5,
        Direction::Left => first_cell(car).0 > 0,
        Direction::Right => last_cell(car).0 < 5,
    })
    &&& cell(b, step_dest_cell(car, d).0, step_dest_cell(car, d).1) == 0
}

/// Some tracked vehicle bears the step's id and can make the move.
pub open spec fn replay_move_ok(b: Seq<Vec<u8>>, cars: Seq<ReplayCar>, step: Step) -> bool {
    exists|i: int|
        0 <= i < cars.len() && (#[trigger] cars[i]).id == step.0 && car_step_ok(b, cars[i], step.1)
}

/// A point after a one-cell slide.
pub open spec fn shifted_point(p: Point, d: Direction) -> Point {
    match d {
        Direction::Up => (p.0, ((p.1 - 1) as u8)),
        Direction::Down => (p.0, ((p.1 + 1) as u8)),
        Direction::Left => (((p.0 - 1) as u8), p.1),
        Direction::Right => (((p.0 + 1) as u8), p.1),
    }
}

/// The moved vehicle: same id and orientation, every cell shifted one
/// step.
pub open spec fn moved_car_ok(car: ReplayCar, car2: ReplayCar, d: Direction) -> bool {
    &&& car2.id == car.id
    &&& car2.orientation == car.orientation
    &&& car2.positions@.len() == car.positions@.len()
    &&& forall|k: int|
        0 <= k < car.positions@.len() ==> #[trigger] car2.positions@[k] == shifted_point(
            car.positions@[k],
            d,
        )
}

/// The tracked vehicle is the cell list of one model vehicle: same id and
/// orientation, and its cells are exactly the vehicle's span, anchor
/// first.
pub open spec fn represents_car(rc: ReplayCar, car: Car, pos: CarPosition) -> bool {
    &&& rc.id == car.id
    &&& rc.orientation == car.orientation
    &&& rc.positions@.len() == car.length
    &&& forall|k: int|
        0 <= k < car.length ==> #[trigger] rc.positions@[k] == (match car.orientation {
            Orientation::Horizontal => (((pos.position.0 + k) as u8), pos.position.1),
            Orientation::Vertical => (pos.position.0, ((pos.position.1 + k) as u8)),
        })
}

/// The validator's grid and vehicle map picture exactly the model's
/// vehicle table and state: one tracked vehicle per model vehicle, and
/// every grid cell bears the id of the span covering it, or 0.
pub open spec fn represents(
    b: Seq<Vec<u8>>,
    rcars: Seq<ReplayCar>,
    cars: Seq<Car>,
    s: Seq<CarPosition>,
) -> bool {
    &&& is_grid(b)
    &&& rcars.len() == cars.len()
    &&& s.len() == cars.len()
    &&& forall|i: int|
        0 <= i < cars.len() ==> #[trigger] represents_car(rcars[i], cars[i], s[i])
    &&& forall|u: int, v: int|
        0 <= u < 6 && 0 <= v < 6 ==> #[trigger] cover_match(b, cars, s, u, v)
}

/// A coherent representation of a well-formed puzzle is itself a
/// coherent validator map: every tracked cell bears its vehicle's id on
/// the grid, and ids are distinct.
pub proof fn lemma_represents_cars_ok(
    b: Seq<Vec<u8>>,
    rcars: Seq<ReplayCar>,
    cars: Seq<Car>,
    s: Seq<CarPosition>,
)
    requires
        wf_state(cars, s),
        represents(b, rcars, cars, s),
    ensures
        replay_cars_ok(b, rcars),
{
    assert forall|i: int| 0 <= i < rcars.len() implies replay_car_ok(b, #[trigger] rcars[i]) by {
        assert(wf_entry(cars, s, i));
        assert(represents_car(rcars[i], cars[i], s[i]));
        let rc = rcars[i];
        assert forall|k: int|
            0 <= k < rc.positions@.len() implies ((#[trigger] rc.positions@[k]).0 < 6
            && rc.positions@[k].1 < 6 && cell(
            b,
            rc.positions@[k].0 as int,
            rc.positions@[k].1 as int,
        ) == rc.id) by {
            let u = rc.positions@[k].0 as int;
            let v = rc.positions@[k].1 as int;
            assert(occupies(cars[i], s[i], u, v));
            assert(cover_match(b, cars, s, u, v));
            if cell(b, u, v) == 0 {
                assert(cell_free(cars, s, u, v));
                assert(false);
            } else if cell(b, u, v) != i + 1 {
                let c = cell(b, u, v);
                assert(occupies(cars[c - 1], s[c - 1], u, v));
                assert(disjoint_cars(cars, s, i, c - 1));
                assert(false);
            }
        }
    }
    assert forall|i: int, j: int|
        0 <= i < rcars.len() && 0 <= j < rcars.len() && i != j implies (#[trigger] rcars[i]).id
        != (#[trigger] rcars[j]).id by {
        assert(wf_entry(cars, s, i));
        assert(wf_entry(cars, s, j));
        assert(represents_car(rcars[i], cars[i], s[i]));
        assert(represents_car(rcars[j], cars[j], s[j]));
    }
}

/// Solution validity, solver against validator: under coherent
/// representations, a move the generator deems legal is legal for the
/// validator too, and the two agree on the newly occupied cell.
pub proof fn lemma_step_agrees(
    b: Seq<Vec<u8>>,
    rcars: Seq<ReplayCar>,
    cars: Seq<Car>,
    s: Seq<CarPosition>,
    step: Step,
)
    requires
        wf_state(cars, s),
        represents(b, rcars, cars, s),
        step_ok(cars, s, step),
    ensures
        replay_move_ok(b, rcars, step),
        car_step_ok(b, rcars[step.0 - 1], step.1),
        step_dest_cell(rcars[step.0 - 1], step.1) == dest_cell(
            cars[step.0 - 1],
            s[step.0 - 1],
            step.1,
        ),
{
    let i = step.0 - 1;
    assert(wf_entry(cars, s, i));
    assert(represents_car(rcars[i], cars[i], s[i]));
    let rc = rcars[i];
    let car = cars[i];
    let pos = s[i];
    let n = rc.positions@.len();
    assert(rc.positions@[0] == first_cell(rc));
    assert(rc.positions@[n - 1] == last_cell(rc));
    let dc = dest_cell(car, pos, step.1);
    assert(step_dest_cell(rc, step.1) == dc);
    assert(0 <= dc.0 < 6 && 0 <= dc.1 < 6);
    assert(cell_free(cars, s, dc.0, dc.1));
    assert(cover_match(b, cars, s, dc.0, dc.1));
    if cell(b, dc.0, dc.1) != 0 {
        let c = cell(b, dc.0, dc.1);
        assert(occupies(cars[c - 1], s[c - 1], dc.0, dc.1));
        assert(false);
    }
    assert(car_step_ok(b, rc, step.1));
    assert(rc.id == step.0);
}

/// Solution validity, the other half: after the validator applies a move
/// the generator deems legal — destination cell given the id, vacated
/// cell emptied, the vehicle's cells shifted — the grid and map picture
/// exactly the stepped model state.
#[verifier::rlimit(60)]
pub proof fn lemma_move_preserves_represents(
    b: Seq<Vec<u8>>,
    rcars: Seq<ReplayCar>,
    cars: Seq<Car>,
    s: Seq<CarPosition>,
    step: Step,
    b2: Seq<Vec<u8>>,
    rcars2: Seq<ReplayCar>,
)
    requires
        wf_state(cars, s),
        represents(b, rcars, cars, s),
        step_ok(cars, s, step),
        is_grid(b2),
        rcars2.len() == rcars.len(),
        forall|j: int| 0 <= j < rcars.len() && j != step.0 - 1 ==> #[trigger] rcars2[j] == rcars[j],
        moved_car_ok(rcars[step.0 - 1], rcars2[step.0 - 1], step.1),
        cell(
            b2,
            step_dest_cell(rcars[step.0 - 1], step.1).0,
            step_dest_cell(rcars[step.0 - 1], step.1).1,
        ) == step.0,
        cell(
            b2,
            step_vacated_cell(rcars[step.0 - 1], step.1).0,
            step_vacated_cell(rcars[step.0 - 1], step.1).1,
        ) == 0,
        forall|u: int, w: int|
            0 <= u < 6 && 0 <= w < 6 && !(u == step_dest_cell(rcars[step.0 - 1], step.1).0 && w
                == step_dest_cell(rcars[step.0 - 1], step.1).1) && !(u == step_vacated_cell(
                rcars[step.0 - 1],
                step.1,
            ).0 && w == step_vacated_cell(rcars[step.0 - 1], step.1).1) ==> #[trigger] cell(
                b2,
                u,
                w,
            ) == cell(b, u, w),
    ensures
        represents(b2, rcars2, cars, apply_step(s, step)),
{
    let i = step.0 - 1;
    let d = step.1;
    let s2 = apply_step(s, step);
    let car = cars[i];
    let posold = s[i];
    let posnew = moved_anchor(posold, d);
    let rc = rcars[i];
    let n = rc.positions@.len();
    assert(wf_entry(cars, s, i));
    assert(represents_car(rc, car, posold));
    assert(rc.positions@[0] == first_cell(rc));
    assert(rc.positions@[n - 1] == last_cell(rc));
    lemma_step_agrees(b, rcars, cars, s, step);
    let dc = step_dest_cell(rc, d);
    let vc = step_vacated_cell(rc, d);
    assert(s2[i] == posnew);

    // The moved vehicle's new cell list is the new anchor's span.
    assert forall|k: int|
        0 <= k < car.length implies #[trigger] rcars2[i].positions@[k] == (
    match car.orientation {
        Orientation::Horizontal => (((posnew.position.0 + k) as u8), posnew.position.1),
        Orientation::Vertical => (posnew.position.0, ((posnew.position.1 + k) as u8)),
    }) by {
        assert(rcars2[i].positions@[k] == shifted_point(rc.positions@[k], d));
    }
    assert(represents_car(rcars2[i], cars[i], s2[i]));
    assert forall|j: int|
        0 <= j < cars.len() implies #[trigger] represents_car(rcars2[j], cars[j], s2[j]) by {
        if j != i {
            assert(rcars2[j] == rcars[j]);
            assert(represents_car(rcars[j], cars[j], s[j]));
            assert(s2[j] == s[j]);
        }
    }

    // Every grid cell still bears the covering id: the destination is now
    // covered by the moved vehicle alone, the vacated cell by nothing,
    // and everywhere else both the grid and the coverage are unchanged.
    assert(occupies(car, posold, vc.0, vc.1));
    assert(!occupies(car, posnew, vc.0, vc.1));
    assert(occupies(car, posnew, dc.0, dc.1));
    assert forall|u: int, v: int|
        0 <= u < 6 && 0 <= v < 6 implies #[trigger] cover_match(b2, cars, s2, u, v) by {
        assert(cover_match(b, cars, s, u, v));
        if u == dc.0 && v == dc.1 {
            assert(cell(b2, u, v) == step.0);
            assert(occupies(cars[i], s2[i], u, v));
        } else if u == vc.0 && v == vc.1 {
            assert(cell(b2, u, v) == 0);
            assert forall|j: int|
                0 <= j < s2.len() implies !(#[trigger] occupies(cars[j], s2[j], u, v)) by {
                if j != i {
                    assert(disjoint_cars(cars, s, i, j));
                    assert(s2[j] == s[j]);
                }
            }
        } else {
            assert(cell(b2, u, v) == cell(b, u, v));
            assert(occupies(car, posnew, u, v) == occupies(car, posold, u, v));
            assert forall|j: int|
                0 <= j < s2.len() implies (#[trigger] occupies(cars[j], s2[j], u, v) == occupies(
                cars[j],
                s[j],
                u,
                v,
            )) by {
                if j != i {
                    assert(s2[j] == s[j]);
                }
            }
            if cell(b, u, v) != 0 {
                let c = cell(b, u, v);
                assert(occupies(cars[c - 1], s[c - 1], u, v));
                assert(occupies(cars[c - 1], s2[c - 1], u, v));
            } else {
                assert(cell_free(cars, s, u, v));
                assert forall|j: int|
                    0 <= j < s2.len() implies !(#[trigger] occupies(cars[j], s2[j], u, v)) by {
                    assert(!occupies(cars[j], s[j], u, v));
                }
            }
        }
    }
}

/// On a winning state the grid shows the target vehicle on the exit
/// cell, and on both exit cells when it is horizontal.
pub proof fn lemma_winner_on_board(
    b: Seq<Vec<u8>>,
    rcars: Seq<ReplayCar>,
    cars: Seq<Car>,
    s: Seq<CarPosition>,
)
    requires
        wf_state(cars, s),
        represents(b, rcars, cars, s),
        spec_winner(s),
    ensures
        cell(b, 4, 2) == 1,
        cars[0].orientation == Orientation::Horizontal ==> cell(b, 5, 2) == 1,
{
    let i = choose|i: int| 0 <= i < s.len() && #[trigger] crate::model::win_entry(s, i);
    assert(wf_entry(cars, s, i));
    assert(i == 0);
    assert(occupies(cars[0], s[0], 4, 2));
    assert(cover_match(b, cars, s, 4, 2));
    if cell(b, 4, 2) != 1 {
        if cell(b, 4, 2) == 0 {
            assert(cell_free(cars, s, 4, 2));
            assert(false);
        } else {
            let c = cell(b, 4, 2);
            assert(occupies(cars[c - 1], s[c - 1], 4, 2));
            assert(disjoint_cars(cars, s, 0, c - 1));
            assert(false);
        }
    }
    if cars[0].orientation == Orientation::Horizontal {
        assert(occupies(cars[0], s[0], 5, 2));
        assert(cover_match(b, cars, s, 5, 2));
        if cell(b, 5, 2) != 1 {
            if cell(b, 5, 2) == 0 {
                assert(cell_free(cars, s, 5, 2));
                assert(false);
            } else {
                let c = cell(b, 5, 2);
                assert(occupies(cars[c - 1], s[c - 1], 5, 2));
                assert(disjoint_cars(cars, s, 0, c - 1));
                assert(false);
            }
        }
    }
}

/// Writes one cell of the grid, leaving every other cell unchanged.
fn set_cell(board: &mut Board, x: usize, y: usize, v: u8)
    requires
        is_grid(old(board)@),
        x < 6,
        y < 6,
    ensures
        is_grid(final(board)@),
        cell(final(board)@, x as int, y as int) == v,
        forall|u: int, w: int|
            0 <= u < 6 && 0 <= w < 6 && !(u == x && w == y) ==> #[trigger] cell(
                final(board)@,
                u,
                w,
            ) == cell(old(board)@, u, w),
{
    let mut new_row: Vec<u8> = Vec::new();
    let mut x2: usize = 0;
    while x2 < 6
        invariant
            is_grid(board@),
            board@ == old(board)@,
            x < 6,
            y < 6,
            x2 <= 6,
            new_row@.len() == x2,
            forall|u: int|
                0 <= u < x2 ==> #[trigger] new_row@[u] == (if u == x {
                    v
                } else {
                    cell(board@, u, y as int)
                }),
        decreases 6 - x2,
    {
        if x2 == x {
            new_row.push(v);
        } else {
            assert(board@[y as int]@.len() == 6);
            new_row.push(board[y][x2]);
        }
        x2 += 1;
    }
    let ghost b0 = board@;
    let _old_row = board.remove(y);
    board.insert(y, new_row);
    proof {
        assert(board@ =~= b0.update(y as int, new_row));
        assert forall|w: int| 0 <= w < 6 implies (#[trigger] board@[w])@.len() == 6 by {
            if w != y {
                assert(board@[w] == b0[w]);
            }
        }
    }
}

/// Looks a tracked vehicle up by its id.
fn find_car(cars: &Vec<ReplayCar>, id: u8) -> (r: Option<usize>)
    ensures
        r matches Some(i) ==> i < cars@.len() && cars@[i as int].id == id,
        r is None ==> forall|i: int| 0 <= i < cars@.len() ==> (#[trigger] cars@[i]).id != id,
{
    let mut i: usize = 0;
    while i < cars.len()
        invariant
            i <= cars@.len(),
            forall|j: int| 0 <= j < i ==> (#[trigger] cars@[j]).id != id,
        decreases cars@.len() - i,
    {
        if cars[i].id == id {
            return Some(i);
        }
        i += 1;
    }
    None
}

/// Derives the validator's vehicle map from a board: one entry per
/// vehicle in id order, its cells listed anchor first. Returns `None`
/// exactly when the board is not loadable.
pub fn map_cars(board: Board) -> (r: Option<Vec<ReplayCar>>)
    ensures
        r is Some <==> loadable(board@),
        r matches Some(cs) ==> {
            &&& replay_cars_ok(board@, cs@)
            &&& cs@.len() <= 8
            &&& forall|i: int| 0 <= i < cs@.len() ==> (#[trigger] cs@[i]).id == i + 1
        },
        r matches Some(cs) ==> forall|cars2: Seq<Car>, s2: Seq<CarPosition>|
            load_post(board@, cars2, s2) ==> #[trigger] represents(board@, cs@, cars2, s2),
{
    let ghost b = board@;
    let loaded = Game::load(board);
    match loaded {
        Err(_) => None,
        Ok((game, state)) => {
            let mut cs: Vec<ReplayCar> = Vec::new();
            let mut i: usize = 0;
            while i < game.cars.len()
                invariant
                    loadable(b),
                    load_post(b, game.cars@, state@),
                    wf_state(game.cars@, state@),
                    i <= game.cars@.len(),
                    cs@.len() == i,
                    forall|j: int|
                        0 <= j < i ==> replay_car_ok(b, #[trigger] cs@[j]) && cs@[j].id == j + 1,
                    forall|j: int|
                        0 <= j < i ==> #[trigger] represents_car(cs@[j], game.cars@[j], state@[j]),
                    forall|u: int, v: int|
                        0 <= u < 6 && 0 <= v < 6 ==> #[trigger] cover_match(
                            b,
                            game.cars@,
                            state@,
                            u,
                            v,
                        ),
                decreases game.cars@.len() - i,
            {
                proof {
                    assert(wf_entry(game.cars@, state@, i as int));
                    assert(load_entry_ok(b, game.cars@[i as int], state@[i as int], i as int));
                }
                let car = game.cars[i];
                let pos = state[i];
                let positions = Car::get_positions(&car, &pos);
                let entry = ReplayCar { id: car.id, orientation: car.orientation, positions };
                proof {
                    let idp = (i + 1) as u8;
                    assert(present(b, idp));
                    lemma_geometry_at_anchor(
                        b,
                        idp,
                        pos.position.0 as int,
                        pos.position.1 as int,
                    );
                    assert forall|k: int|
                        0 <= k < entry.positions@.len() implies ((
                        #[trigger] entry.positions@[k]).0 < 6 && entry.positions@[k].1 < 6 && cell(
                        b,
                        entry.positions@[k].0 as int,
                        entry.positions@[k].1 as int,
                    ) == entry.id) by {
                        assert(occupies(
                            car,
                            pos,
                            entry.positions@[k].0 as int,
                            entry.positions@[k].1 as int,
                        ));
                    }
                    assert(replay_car_ok(b, entry));
                    assert(represents_car(entry, car, pos));
                }
                let ghost cs0 = cs@;
                cs.push(entry);
                proof {
                    assert forall|j: int|
                        0 <= j < cs@.len() implies replay_car_ok(b, #[trigger] cs@[j]) && cs@[j].id
                        == j + 1 by {
                        if j < cs0.len() {
                            assert(cs@[j] == cs0[j]);
                        }
                    }
                    assert forall|j: int|
                        0 <= j < cs@.len() implies #[trigger] represents_car(
                        cs@[j],
                        game.cars@[j],
                        state@[j],
                    ) by {
                        if j < cs0.len() {
                            assert(cs@[j] == cs0[j]);
                        }
                    }
                }
                i += 1;
            }
            proof {
                assert(represents(b, cs@, game.cars@, state@));
                assert forall|cars2: Seq<Car>, s2: Seq<CarPosition>|
                    load_post(b, cars2, s2) implies #[trigger] represents(b, cs@, cars2, s2) by {
                    lemma_load_deterministic(b, cars2, s2, game.cars@, state@);
                    assert(cars2 == game.cars@);
                    assert(s2 == state@);
                }
            }
            Some(cs)
        },
    }
}

/// Re-simulates one move against the grid: checks the boundary and
/// collision rules, then slides the vehicle's cells by one.
///
/// Returns `Ok` exactly when some tracked vehicle bears the step's id and
/// the move is legal; then the grid gains the vehicle's id on the newly
/// occupied cell, loses it on the vacated cell, and everything else is
/// unchanged — and grid and vehicle map stay coherent, so the next move
/// can be replayed. An illegal move changes nothing and reports the move
/// index and descriptor.
#[verifier::rlimit(60)]
pub fn move_car(board: &mut Board, cars: &mut Vec<ReplayCar>, step: Step, play: u32) -> (r:
    Result<(), ReplayError>)
    requires
        is_grid(old(board)@),
        replay_cars_ok(old(board)@, old(cars)@),
    ensures
        r is Ok <==> replay_move_ok(old(board)@, old(cars)@, step),
        r matches Err(e) ==> e.play == play && e.step == step && final(board)@ == old(board)@
            && final(cars)@ == old(cars)@,
        r is Ok ==> is_grid(final(board)@) && replay_cars_ok(final(board)@, final(cars)@)
            && final(cars)@.len() == old(cars)@.len(),
        r is Ok ==> forall|i: int|
            0 <= i < old(cars)@.len() && (#[trigger] old(cars)@[i]).id != step.0
                ==> final(cars)@[i] == old(cars)@[i],
        r is Ok ==> forall|i: int|
            0 <= i < old(cars)@.len() && (#[trigger] old(cars)@[i]).id == step.0 ==> {
                let dc = step_dest_cell(old(cars)@[i], step.1);
                let vc = step_vacated_cell(old(cars)@[i], step.1);
                &&& moved_car_ok(old(cars)@[i], final(cars)@[i], step.1)
                &&& cell(final(board)@, dc.0, dc.1) == step.0
                &&& cell(final(board)@, vc.0, vc.1) == 0
                &&& forall|u: int, w: int|
                    0 <= u < 6 && 0 <= w < 6 && !(u == dc.0 && w == dc.1) && !(u == vc.0 && w
                        == vc.1) ==> #[trigger] cell(final(board)@, u, w) == cell(
                        old(board)@,
                        u,
                        w,
                    )
            },
{
    let car_id = step.0;
    let direction = step.1;

    let idx = match find_car(cars, car_id) {
        Some(i) => i,
        None => {
            return Err(ReplayError { play, step });
        },
    };
    proof {
        assert(replay_car_ok(board@, cars@[idx as int]));
        assert forall|i: int|
            0 <= i < cars@.len() && (#[trigger] cars@[i]).id == step.0 implies i == idx as int by {
            if i != idx as int {
                assert(cars@[i].id != cars@[idx as int].id);
            }
        }
    }
    let plen = cars[idx].positions.len();
    let first = cars[idx].positions[0];
    let last = cars[idx].positions[plen - 1];
    let orient = cars[idx].orientation;

    // Boundary and collision rules, as in the move generator.
    let dest: Point;
    let vac: Point;
    match (orient, direction) {
        (Orientation::Horizontal, Direction::Left) => {
            if first.0 == 0 {
                return Err(ReplayError { play, step });
            }
            assert(board@[first.1 as int]@.len() == 6);
            if board[first.1 as usize][first.0 as usize - 1] != 0 {
                return Err(ReplayError { play, step });
            }
            dest = (first.0 - 1, first.1);
            vac = last;
        },
        (Orientation::Horizontal, Direction::Right) => {
            if last.0 >= 5 {
                return Err(ReplayError { play, step });
            }
            assert(board@[last.1 as int]@.len() == 6);
            if board[last.1 as usize][last.0 as usize + 1] != 0 {
                return Err(ReplayError { play, step });
            }
            dest = (last.0 + 1, last.1);
            vac = first;
        },
        (Orientation::Vertical, Direction::Up) => {
            if first.1 == 0 {
                return Err(ReplayError { play, step });
            }
            assert(board@[first.1 as int - 1]@.len() == 6);
            if board[first.1 as usize - 1][first.0 as usize] != 0 {
                return Err(ReplayError { play, step });
            }
            dest = (first.0, first.1 - 1);
            vac = last;
        },
        (Orientation::Vertical, Direction::Down) => {
            if last.1 >= 5 {
                return Err(ReplayError { play, step });
            }
            assert(board@[last.1 as int + 1]@.len() == 6);
            if board[last.1 as usize + 1][last.0 as usize] != 0 {
                return Err(ReplayError { play, step });
            }
            dest = (last.0, last.1 + 1);
            vac = first;
        },
        _ => {
            return Err(ReplayError { play, step });
        },
    }
    proof {
        assert(car_step_ok(board@, cars@[idx as int], direction));
        assert(replay_move_ok(board@, cars@, step));
        assert(dest.0 as int == step_dest_cell(cars@[idx as int], direction).0);
        assert(dest.1 as int == step_dest_cell(cars@[idx as int], direction).1);
        assert(vac.0 as int == step_vacated_cell(cars@[idx as int], direction).0);
        assert(vac.1 as int == step_vacated_cell(cars@[idx as int], direction).1);
    }
    let ghost b0 = board@;
    let ghost cars0 = cars@;
    let ghost moved0 = cars@[idx as int];

    // Slide: the vacated cell empties, the destination cell gains the id;
    // the vehicle's other cells already bear it.
    proof {
        assert(cell(b0, vac.0 as int, vac.1 as int) == car_id);
        assert(cell(b0, dest.0 as int, dest.1 as int) == 0);
        assert(!(dest.0 == vac.0 && dest.1 == vac.1));
    }
    set_cell(board, vac.0 as usize, vac.1 as usize, 0);
    let ghost bmid = board@;
    set_cell(board, dest.0 as usize, dest.1 as usize, car_id);
    proof {
        assert(cell(board@, dest.0 as int, dest.1 as int) == car_id);
        assert(cell(board@, vac.0 as int, vac.1 as int) == cell(bmid, vac.0 as int, vac.1 as int));
        assert(cell(board@, vac.0 as int, vac.1 as int) == 0);
        assert forall|u: int, w: int|
            0 <= u < 6 && 0 <= w < 6 && !(u == dest.0 as int && w == dest.1 as int) && !(u
                == vac.0 as int && w == vac.1 as int) implies #[trigger] cell(board@, u, w) == cell(
            b0,
            u,
            w,
        ) by {
            assert(cell(board@, u, w) == cell(bmid, u, w));
            assert(cell(bmid, u, w) == cell(b0, u, w));
        }
    }

    let mut new_positions: Vec<Point> = Vec::new();
    let mut k: usize = 0;
    while k < plen
        invariant
            replay_car_ok(b0, cars@[idx as int]),
            cars@ == cars0,
            idx < cars@.len(),
            plen == cars@[idx as int].positions@.len(),
            k <= plen,
            new_positions@.len() == k,
            car_step_ok(b0, cars@[idx as int], direction),
            direction == step.1,
            forall|k2: int|
                0 <= k2 < k ==> #[trigger] new_positions@[k2] == shifted_point(
                    cars@[idx as int].positions@[k2],
                    direction,
                ),
        decreases plen - k,
    {
        let p = cars[idx].positions[k];
        proof {
            assert(cars@[idx as int].positions@[k as int].0 < 6);
            assert(cars@[idx as int].positions@[k as int].1 < 6);
        }
        let q: Point = match direction {
            Direction::Up => (p.0, p.1 - 1),
            Direction::Down => (p.0, p.1 + 1),
            Direction::Left => (p.0 - 1, p.1),
            Direction::Right => (p.0 + 1, p.1),
        };
        new_positions.push(q);
        k += 1;
    }
    let new_car = ReplayCar { id: car_id, orientation: orient, positions: new_positions };
    proof {
        assert(moved_car_ok(moved0, new_car, direction));
    }
    let _old_car = cars.remove(idx);
    cars.insert(idx, new_car);
    proof {
        assert(cars@ =~= cars0.update(idx as int, new_car));
        lemma_move_car_coherent(b0, cars0, idx as int, direction, board@, cars@);
        assert forall|i: int|
            0 <= i < cars0.len() && (#[trigger] cars0[i]).id == step.0 implies i == idx as int by {
            if i != idx as int {
                assert(cars0[i].id != cars0[idx as int].id);
            }
        }
    }
    Ok(())
}

/// After one legal slide — vacated cell emptied, destination cell given
/// the id, the moved vehicle's cells shifted — the grid and the vehicle
/// map are coherent again.
proof fn lemma_move_car_coherent(
    b0: Seq<Vec<u8>>,
    cars0: Seq<ReplayCar>,
    idx: int,
    d: Direction,
    b2: Seq<Vec<u8>>,
    cars2: Seq<ReplayCar>,
)
    requires
        is_grid(b0),
        replay_cars_ok(b0, cars0),
        0 <= idx < cars0.len(),
        car_step_ok(b0, cars0[idx], d),
        is_grid(b2),
        cars2.len() == cars0.len(),
        forall|j: int| 0 <= j < cars0.len() && j != idx ==> #[trigger] cars2[j] == cars0[j],
        moved_car_ok(cars0[idx], cars2[idx], d),
        cell(b2, step_dest_cell(cars0[idx], d).0, step_dest_cell(cars0[idx], d).1) == cars0[idx].id,
        cell(b2, step_vacated_cell(cars0[idx], d).0, step_vacated_cell(cars0[idx], d).1) == 0,
        forall|u: int, w: int|
            0 <= u < 6 && 0 <= w < 6 && !(u == step_dest_cell(cars0[idx], d).0 && w
                == step_dest_cell(cars0[idx], d).1) && !(u == step_vacated_cell(cars0[idx], d).0
                && w == step_vacated_cell(cars0[idx], d).1) ==> #[trigger] cell(b2, u, w) == cell(
                b0,
                u,
                w,
            ),
    ensures
        replay_cars_ok(b2, cars2),
{
    let car = cars0[idx];
    let car2 = cars2[idx];
    let dc = step_dest_cell(car, d);
    let vc = step_vacated_cell(car, d);
    let n = car.positions@.len();
    assert(replay_car_ok(b0, car));

    // The moved vehicle agrees with the new grid.
    assert forall|k: int|
        0 <= k < car2.positions@.len() implies ((#[trigger] car2.positions@[k]).0 < 6
        && car2.positions@[k].1 < 6 && cell(
        b2,
        car2.positions@[k].0 as int,
        car2.positions@[k].1 as int,
    ) == car2.id) by {
        assert(car2.positions@[k] == shifted_point(car.positions@[k], d));
        let q = car2.positions@[k];
        match d {
            Direction::Up => {
                if k == 0 {
                    assert((q.0 as int, q.1 as int) == dc);
                } else {
                    assert(q == car.positions@[k - 1]);
                    assert(!(q.0 == vc.0 && q.1 == vc.1));
                }
            },
            Direction::Down => {
                if k == n - 1 {
                    assert((q.0 as int, q.1 as int) == dc);
                } else {
                    assert(q == car.positions@[k + 1]);
                    assert(!(q.0 == vc.0 && q.1 == vc.1));
                }
            },
            Direction::Left => {
                if k == 0 {
                    assert((q.0 as int, q.1 as int) == dc);
                } else {
                    assert(q == car.positions@[k - 1]);
                    assert(!(q.0 == vc.0 && q.1 == vc.1));
                }
            },
            Direction::Right => {
                if k == n - 1 {
                    assert((q.0 as int, q.1 as int) == dc);
                } else {
                    assert(q == car.positions@[k + 1]);
                    assert(!(q.0 == vc.0 && q.1 == vc.1));
                }
            },
        }
        assert(!(q.0 as int == dc.0 && q.1 as int == dc.1) ==> cell(b2, q.0 as int, q.1 as int)
            == cell(b0, q.0 as int, q.1 as int));
    }
    assert(replay_car_ok(b2, car2));

    // Every other vehicle's cells are untouched.
    assert forall|i: int| 0 <= i < cars2.len() implies replay_car_ok(b2, #[trigger] cars2[i]) by {
        if i != idx {
            assert(cars2[i] == cars0[i]);
            assert(replay_car_ok(b0, cars0[i]));
            assert forall|k: int|
                0 <= k < cars0[i].positions@.len() implies ((#[trigger] cars0[i].positions@[k]).0
                < 6 && cars0[i].positions@[k].1 < 6 && cell(
                b2,
                cars0[i].positions@[k].0 as int,
                cars0[i].positions@[k].1 as int,
            ) == cars0[i].id) by {
                let q = cars0[i].positions@[k];
                assert(cell(b0, q.0 as int, q.1 as int) == cars0[i].id);
                assert(cars0[i].id != car.id);
                assert(cell(b0, dc.0, dc.1) == 0);
                assert(cell(b0, vc.0, vc.1) == car.id);
                assert(!(q.0 as int == dc.0 && q.1 as int == dc.1));
                assert(!(q.0 as int == vc.0 && q.1 as int == vc.1));
            }
        }
    }
    assert forall|i: int, j: int|
        0 <= i < cars2.len() && 0 <= j < cars2.len() && i != j implies (#[trigger] cars2[i]).id
        != (#[trigger] cars2[j]).id by {
        if i == idx {
            assert(cars2[i].id == cars0[i].id);
        } else {
            assert(cars2[i] == cars0[i]);
        }
        if j == idx {
            assert(cars2[j].id == cars0[j].id);
        } else {
            assert(cars2[j] == cars0[j]);
        }
        assert(cars0[i].id != cars0[j].id);
    }
}


/// Replays a whole move sequence through the validator.
///
/// Solution validity: a sequence that is legal for the model — in
/// particular any sequence the search engine returns — replays with no
/// illegal-move diagnostic, and the grid and vehicle map end up
/// picturing the final model state.
pub fn replay_solution(
    board: &mut Board,
    rcars: &mut Vec<ReplayCar>,
    steps: &Vec<Step>,
    Ghost(cars): Ghost<Seq<Car>>,
    Ghost(s0): Ghost<Seq<CarPosition>>,
) -> (r: Result<(), ReplayError>)
    requires
        wf_state(cars, s0),
        represents(old(board)@, old(rcars)@, cars, s0),
        replay_ok(cars, s0, steps@),
    ensures
        r is Ok,
        wf_state(cars, replay_result(cars, s0, steps@)),
        represents(final(board)@, final(rcars)@, cars, replay_result(cars, s0, steps@)),
{
    let ghost mut scur = s0;
    proof {
        assert(steps@.skip(0) =~= steps@);
    }
    let mut i: usize = 0;
    while i < steps.len()
        invariant
            i <= steps@.len(),
            wf_state(cars, scur),
            represents(board@, rcars@, cars, scur),
            replay_ok(cars, scur, steps@.skip(i as int)),
            replay_result(cars, scur, steps@.skip(i as int)) == replay_result(cars, s0, steps@),
        decreases steps@.len() - i,
    {
        let step = steps[i];
        proof {
            assert(steps@.skip(i as int)[0] == step);
            assert(step_ok(cars, scur, step));
            lemma_step_agrees(board@, rcars@, cars, scur, step);
            lemma_represents_cars_ok(board@, rcars@, cars, scur);
        }
        let ghost bpre = board@;
        let ghost rpre = rcars@;
        let play: u32 = if i < 0xFFFF_FFFF {
            (i + 1) as u32
        } else {
            0xFFFF_FFFF
        };
        let outcome = move_car(board, rcars, step, play);
        match outcome {
            Ok(_) => {},
            Err(e) => {
                proof {
                    assert(false);
                }
                return Err(e);
            },
        }
        proof {
            let idx = step.0 - 1;
            assert(wf_entry(cars, scur, idx));
            assert(represents_car(rpre[idx], cars[idx], scur[idx]));
            assert(rpre[idx].id == step.0);
            assert forall|j: int|
                0 <= j < rpre.len() && j != idx implies #[trigger] rcars@[j] == rpre[j] by {
                assert(wf_entry(cars, scur, j));
                assert(represents_car(rpre[j], cars[j], scur[j]));
                assert(rpre[j].id == j + 1);
            }
            lemma_move_preserves_represents(bpre, rpre, cars, scur, step, board@, rcars@);
            lemma_step_preserves_wf(cars, scur, step);
            let snext = apply_step(scur, step);
            assert(steps@.skip(i as int).drop_first() =~= steps@.skip(i as int + 1));
            assert(replay_ok(cars, snext, steps@.skip(i as int + 1)));
            assert(replay_result(cars, snext, steps@.skip(i as int + 1)) == replay_result(
                cars,
                scur,
                steps@.skip(i as int),
            ));
            scur = snext;
        }
        i += 1;
    }
    proof {
        assert(steps@.skip(steps@.len() as int) =~= Seq::<Step>::empty());
        assert(replay_result(cars, scur, steps@.skip(i as int)) == scur);
    }
    Ok(())
}

} // verus!
