//! Data types and the mathematical model of a puzzle.
//!
//! A puzzle instance is a vehicle table (one [`Car`] per vehicle, immutable)
//! together with a [`State`] (one anchor per vehicle). The spec functions
//! here say which cells a vehicle occupies, when a table/state pair is
//! well-formed, when a single-cell move is legal, and what replaying a move
//! sequence yields. The proof functions establish that legal moves preserve
//! well-formedness and that edge-flush vehicles cannot slide past the edge.

use vstd::prelude::*;

verus! {

/// Number of cells along each edge of the square board.
pub const BOARD_SIZE: usize = 6;

/// Largest vehicle id a board may use; id 0 is reserved for empty cells.
pub const MAX_CARS: usize = 8;

/// One of the four single-cell slide directions.
#[derive(Clone, Copy, Debug, PartialEq, Eq, Hash)]
pub enum Direction {
    Up,
    Down,
    Left,
    Right,
}

/// The axis along which a vehicle slides.
#[derive(Clone, Copy, Debug, PartialEq, Eq)]
pub enum Orientation {
    Horizontal,
    Vertical,
}

/// Immutable geometry of one vehicle, derived once from the board.
#[derive(Clone, Copy, Debug, PartialEq, Eq)]
pub struct Car {
    pub id: u8,
    pub length: u8,
    pub orientation: Orientation,
}

/// An `(x, y)` cell coordinate; `x` grows rightwards, `y` grows downwards.
pub type Point = (u8, u8);

/// One move: the id of the vehicle and the direction it slides.
pub type Step = (u8, Direction);

/// A vehicle id together with its anchor, the leftmost (horizontal) or
/// topmost (vertical) cell of its span.
#[derive(Clone, Copy, Debug, PartialEq, Eq, Hash)]
pub struct CarPosition {
    pub id: u8,
    pub position: Point,
}

/// The mutable facet of a puzzle: one anchor per vehicle, the entry for
/// vehicle id `k` at index `k - 1`.
pub type State = Vec<CarPosition>;

/// A grid of vehicle ids, row by row; 0 marks an empty cell.
pub type Board = Vec<Vec<u8>>;

/// A puzzle instance: the immutable vehicle table, the entry for vehicle
/// id `k` at index `k - 1`. Built once by the loader and never mutated.
#[derive(Debug, PartialEq, Eq)]
pub struct Game {
    pub cars: Vec<Car>,
}

/// The vehicle occupies cell `(x, y)`: the span is `car.length` consecutive
/// cells from the anchor along the orientation axis.
pub open spec fn occupies(car: Car, pos: CarPosition, x: int, y: int) -> bool {
    match car.orientation {
        Orientation::Horizontal => y == pos.position.1
            && pos.position.0 <= x < pos.position.0 + car.length,
        Orientation::Vertical => x == pos.position.0
            && pos.position.1 <= y < pos.position.1 + car.length,
    }
}

/// The vehicle's whole span lies inside the 6x6 board.
pub open spec fn car_in_bounds(car: Car, pos: CarPosition) -> bool {
    match car.orientation {
        Orientation::Horizontal => pos.position.0 + car.length <= 6 && pos.position.1 < 6,
        Orientation::Vertical => pos.position.0 < 6 && pos.position.1 + car.length <= 6,
    }
}

/// The spans of vehicles `i` and `j` share no cell.
pub open spec fn disjoint_cars(cars: Seq<Car>, s: Seq<CarPosition>, i: int, j: int) -> bool {
    forall|x: int, y: int|
        !(#[trigger] occupies(cars[i], s[i], x, y) && occupies(cars[j], s[j], x, y))
}

/// Entry `i` of a table/state pair is well-formed: ids follow the indexing
/// convention, the length is 2 or 3, and the span is inside the board.
pub open spec fn wf_entry(cars: Seq<Car>, s: Seq<CarPosition>, i: int) -> bool {
    &&& cars[i].id == i + 1
    &&& s[i].id == i + 1
    &&& (cars[i].length == 2 || cars[i].length == 3)
    &&& car_in_bounds(cars[i], s[i])
}

/// A vehicle table and a state describe a well-formed puzzle: one entry per
/// vehicle in id order, every span inside the board, all spans pairwise
/// disjoint.
pub open spec fn wf_state(cars: Seq<Car>, s: Seq<CarPosition>) -> bool {
    &&& s.len() == cars.len()
    &&& cars.len() <= MAX_CARS
    &&& forall|i: int| 0 <= i < cars.len() ==> #[trigger] wf_entry(cars, s, i)
    &&& forall|i: int, j: int|
        0 <= i < cars.len() && 0 <= j < cars.len() && i != j ==> #[trigger] disjoint_cars(
            cars,
            s,
            i,
            j,
        )
}

/// No vehicle's span contains the cell `(x, y)`.
pub open spec fn cell_free(cars: Seq<Car>, s: Seq<CarPosition>, x: int, y: int) -> bool {
    forall|j: int| 0 <= j < s.len() ==> !(#[trigger] occupies(cars[j], s[j], x, y))
}

/// Horizontal vehicles slide only Left/Right, vertical ones only Up/Down.
pub open spec fn direction_fits(o: Orientation, d: Direction) -> bool {
    match (o, d) {
        (Orientation::Horizontal, Direction::Left) => true,
        (Orientation::Horizontal, Direction::Right) => true,
        (Orientation::Vertical, Direction::Up) => true,
        (Orientation::Vertical, Direction::Down) => true,
        _ => false,
    }
}

/// The vehicle is not flush against the board edge it would slide towards.
pub open spec fn boundary_ok(car: Car, pos: CarPosition, d: Direction) -> bool {
    match d {
        Direction::Up => pos.position.1 > 0,
        Direction::Down => pos.position.1 + car.length < 6,
        Direction::Left => pos.position.0 > 0,
        Direction::Right => pos.position.0 + car.length < 6,
    }
}

/// The single cell the vehicle would newly occupy on a one-cell slide.
pub open spec fn dest_cell(car: Car, pos: CarPosition, d: Direction) -> (int, int) {
    match d {
        Direction::Up => (pos.position.0 as int, pos.position.1 - 1),
        Direction::Down => (pos.position.0 as int, pos.position.1 + car.length),
        Direction::Left => (pos.position.0 - 1, pos.position.1 as int),
        Direction::Right => (pos.position.0 + car.length, pos.position.1 as int),
    }
}

/// The anchor after a one-cell slide in direction `d`.
pub open spec fn moved_anchor(pos: CarPosition, d: Direction) -> CarPosition {
    let x = pos.position.0;
    let y = pos.position.1;
    let p: Point = match d {
        Direction::Up => (x, (y - 1) as u8),
        Direction::Down => (x, (y + 1) as u8),
        Direction::Left => (((x - 1) as u8), y),
        Direction::Right => (((x + 1) as u8), y),
    };
    CarPosition { id: pos.id, position: p }
}

/// The step names a vehicle, slides it along its own axis, stays on the
/// board, and the newly occupied cell lies in no vehicle's span.
pub open spec fn step_ok(cars: Seq<Car>, s: Seq<CarPosition>, step: Step) -> bool {
    let i = step.0 - 1;
    &&& 1 <= step.0 <= s.len()
    &&& direction_fits(cars[i].orientation, step.1)
    &&& boundary_ok(cars[i], s[i], step.1)
    &&& cell_free(cars, s, dest_cell(cars[i], s[i], step.1).0, dest_cell(cars[i], s[i], step.1).1)
}

/// The state after a step: a copy with the moving vehicle's anchor changed.
pub open spec fn apply_step(s: Seq<CarPosition>, step: Step) -> Seq<CarPosition> {
    s.update(step.0 - 1, moved_anchor(s[step.0 - 1], step.1))
}

/// Every step of the sequence is legal when replayed in order from `s`.
pub open spec fn replay_ok(cars: Seq<Car>, s: Seq<CarPosition>, steps: Seq<Step>) -> bool
    decreases steps.len(),
{
    steps.len() == 0 || (step_ok(cars, s, steps[0]) && replay_ok(
        cars,
        apply_step(s, steps[0]),
        steps.drop_first(),
    ))
}

/// The state reached by replaying the whole sequence from `s`.
pub open spec fn replay_result(cars: Seq<Car>, s: Seq<CarPosition>, steps: Seq<Step>) -> Seq<
    CarPosition,
>
    decreases steps.len(),
{
    if steps.len() == 0 {
        s
    } else {
        replay_result(cars, apply_step(s, steps[0]), steps.drop_first())
    }
}

/// Entry `i` is the target vehicle standing on the exit cell.
pub open spec fn win_entry(s: Seq<CarPosition>, i: int) -> bool {
    s[i].id == 1 && s[i].position.0 == 4 && s[i].position.1 == 2
}

/// The target vehicle (id 1) has anchor `(4, 2)`: the exit column on the
/// exit row.
pub open spec fn spec_winner(s: Seq<CarPosition>) -> bool {
    exists|i: int| 0 <= i < s.len() && #[trigger] win_entry(s, i)
}

/// After a one-cell slide the span is contained in the old span plus the
/// newly occupied cell.
pub proof fn lemma_moved_span(car: Car, pos: CarPosition, d: Direction, x: int, y: int)
    requires
        direction_fits(car.orientation, d),
        boundary_ok(car, pos, d),
        car_in_bounds(car, pos),
        occupies(car, moved_anchor(pos, d), x, y),
    ensures
        occupies(car, pos, x, y) || (x == dest_cell(car, pos, d).0 && y == dest_cell(
            car,
            pos,
            d,
        ).1),
{
}

/// A legal step keeps the puzzle well-formed: the moved span stays on the
/// board and stays disjoint from every other vehicle's span.
pub proof fn lemma_step_preserves_wf(cars: Seq<Car>, s: Seq<CarPosition>, step: Step)
    requires
        wf_state(cars, s),
        step_ok(cars, s, step),
    ensures
        wf_state(cars, apply_step(s, step)),
{
    let i = step.0 - 1;
    let s2 = apply_step(s, step);
    let d = step.1;
    assert(wf_entry(cars, s, i));
    assert forall|k: int| 0 <= k < cars.len() implies #[trigger] wf_entry(cars, s2, k) by {
        assert(wf_entry(cars, s, k));
    }
    assert forall|k: int, l: int|
        0 <= k < cars.len() && 0 <= l < cars.len() && k != l implies #[trigger] disjoint_cars(
        cars,
        s2,
        k,
        l,
    ) by {
        assert(disjoint_cars(cars, s, k, l));
        assert forall|x: int, y: int|
            !(#[trigger] occupies(cars[k], s2[k], x, y) && occupies(cars[l], s2[l], x, y)) by {
            if occupies(cars[k], s2[k], x, y) && occupies(cars[l], s2[l], x, y) {
                if k == i {
                    lemma_moved_span(cars[i], s[i], d, x, y);
                    assert(occupies(cars[l], s[l], x, y));
                } else if l == i {
                    lemma_moved_span(cars[i], s[i], d, x, y);
                    assert(occupies(cars[k], s[k], x, y));
                }
            }
        }
    }
}

/// Boundary guards: a vehicle flush against a board edge yields no move
/// towards that edge. In particular a horizontal vehicle with anchor
/// `x == 0` admits no Left move, and a vertical vehicle whose span ends at
/// the bottom row admits no Down move.
pub proof fn lemma_boundary_guards(cars: Seq<Car>, s: Seq<CarPosition>, i: int)
    requires
        wf_state(cars, s),
        0 <= i < s.len(),
    ensures
        s[i].position.0 == 0 ==> !step_ok(cars, s, (((i + 1) as u8), Direction::Left)),
        s[i].position.0 + cars[i].length >= 6 ==> !step_ok(
            cars,
            s,
            (((i + 1) as u8), Direction::Right),
        ),
        s[i].position.1 == 0 ==> !step_ok(cars, s, (((i + 1) as u8), Direction::Up)),
        s[i].position.1 + cars[i].length >= 6 ==> !step_ok(
            cars,
            s,
            (((i + 1) as u8), Direction::Down),
        ),
{
}

/// Appending one legal step to a legal replay yields a legal replay whose
/// result is the stepped result.
pub proof fn lemma_replay_push(cars: Seq<Car>, s0: Seq<CarPosition>, steps: Seq<Step>, step: Step)
    requires
        replay_ok(cars, s0, steps),
        step_ok(cars, replay_result(cars, s0, steps), step),
    ensures
        replay_ok(cars, s0, steps.push(step)),
        replay_result(cars, s0, steps.push(step)) == apply_step(
            replay_result(cars, s0, steps),
            step,
        ),
    decreases steps.len(),
{
    if steps.len() == 0 {
        assert(steps.push(step)[0] == step);
        assert(steps.push(step).drop_first() =~= Seq::<Step>::empty());
        assert(replay_result(cars, s0, steps) == s0);
        assert(replay_ok(cars, apply_step(s0, step), Seq::<Step>::empty()));
        assert(replay_result(cars, apply_step(s0, step), Seq::<Step>::empty()) == apply_step(
            s0,
            step,
        ));
    } else {
        let tail = steps.drop_first();
        let s1 = apply_step(s0, steps[0]);
        assert(replay_result(cars, s0, steps) == replay_result(cars, s1, tail));
        lemma_replay_push(cars, s1, tail, step);
        assert(steps.push(step)[0] == steps[0]);
        assert(steps.push(step).drop_first() =~= tail.push(step));
        assert(replay_ok(cars, s0, steps.push(step)));
        assert(replay_result(cars, s0, steps.push(step)) == replay_result(
            cars,
            s1,
            tail.push(step),
        ));
    }
}

} // verus!
