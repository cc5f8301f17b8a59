//! The board loader and the debug renderer.
//!
//! A board is a 6x6 grid of vehicle ids (0 = empty). The loader scans the
//! grid in row-major order; the first cell bearing an id is the vehicle's
//! anchor, its orientation is derived from the right neighbour and its
//! length from the cell two positions further along the axis. The loader
//! validates the grid (ids at most 8, ids contiguous from 1, each id's
//! cells exactly one straight in-bounds span) and returns the vehicle
//! table and the initial state, or a [`LoadError`].
//!
//! [`load_post`] pins the loader's output as a function of the board, so
//! loading the same board twice provably yields identical results
//! ([`lemma_load_deterministic`]).

use vstd::prelude::*;

use crate::model::{
    car_in_bounds, cell_free, disjoint_cars, occupies, wf_entry, wf_state, Board, Car,
    CarPosition, Game, Orientation, Point, State,
};

verus! {

/// Why a board cannot be loaded.
#[derive(Debug, Clone, Copy, PartialEq, Eq)]
pub enum LoadError {
    /// The grid is not exactly 6 rows of 6 cells.
    BadDimensions,
    /// Some cell bears an id greater than 8.
    IdOutOfRange,
    /// The nonzero ids are not `1..=n`, or some id's cells are not one
    /// straight in-bounds span of length 2 or 3 derived at its anchor.
    MalformedGeometry,
}

/// The board has exactly six rows of six cells each.
pub open spec fn is_grid(b: Seq<Vec<u8>>) -> bool {
    b.len() == 6 && forall|y: int| 0 <= y < 6 ==> (#[trigger] b[y])@.len() == 6
}

/// The id at cell `(x, y)`.
pub open spec fn cell(b: Seq<Vec<u8>>, x: int, y: int) -> u8 {
    b[y]@[x]
}

/// Some cell bears `id`.
pub open spec fn present(b: Seq<Vec<u8>>, id: u8) -> bool {
    exists|x: int, y: int| 0 <= x < 6 && 0 <= y < 6 && #[trigger] cell(b, x, y) == id
}

/// Every cell bears an id of at most 8.
pub open spec fn ids_in_range(b: Seq<Vec<u8>>) -> bool {
    forall|x: int, y: int| 0 <= x < 6 && 0 <= y < 6 ==> #[trigger] cell(b, x, y) <= 8
}

/// Cell `(x, y)` is the first cell bearing `id` in row-major scan order.
pub open spec fn is_anchor(b: Seq<Vec<u8>>, id: u8, x: int, y: int) -> bool {
    &&& 0 <= x < 6 && 0 <= y < 6
    &&& cell(b, x, y) == id
    &&& forall|x2: int, y2: int|
        0 <= x2 < 6 && 0 <= y2 < 6 && (y2 < y || (y2 == y && x2 < x)) ==> #[trigger] cell(
            b,
            x2,
            y2,
        ) != id
}

/// Orientation derived at the anchor: Horizontal iff the cell to the
/// right bears the same id.
pub open spec fn derived_orientation(b: Seq<Vec<u8>>, id: u8, x: int, y: int) -> Orientation {
    if x < 5 && cell(b, x + 1, y) == id {
        Orientation::Horizontal
    } else {
        Orientation::Vertical
    }
}

/// Length derived at the anchor: 3 iff the cell two positions further
/// along the orientation axis bears the same id, else 2.
pub open spec fn derived_length(b: Seq<Vec<u8>>, id: u8, x: int, y: int) -> u8 {
    if derived_orientation(b, id, x, y) == Orientation::Horizontal {
        if x < 4 && cell(b, x + 2, y) == id {
            3
        } else {
            2
        }
    } else {
        if y < 4 && cell(b, x, y + 2) == id {
            3
        } else {
            2
        }
    }
}

/// The vehicle the loader derives at an anchor.
pub open spec fn derived_car(b: Seq<Vec<u8>>, id: u8, x: int, y: int) -> Car {
    Car {
        id,
        length: derived_length(b, id, x, y),
        orientation: derived_orientation(b, id, x, y),
    }
}

/// Entry `i` of the loader's output: vehicle `i + 1`, anchored at the
/// first cell of its id in row-major order, with derived geometry.
pub open spec fn load_entry_ok(b: Seq<Vec<u8>>, car: Car, pos: CarPosition, i: int) -> bool {
    &&& car.id == i + 1
    &&& pos.id == i + 1
    &&& is_anchor(b, (i + 1) as u8, pos.position.0 as int, pos.position.1 as int)
    &&& car == derived_car(b, (i + 1) as u8, pos.position.0 as int, pos.position.1 as int)
}

/// Exactly what the loader owes for a successfully loaded board: one
/// vehicle per id `1..=n` in order, each anchored at the first cell of
/// its id with orientation and length derived from the board, and the
/// board's nonzero ids exactly `1..=n`.
pub open spec fn load_post(b: Seq<Vec<u8>>, cars: Seq<Car>, s: Seq<CarPosition>) -> bool {
    &&& is_grid(b)
    &&& ids_in_range(b)
    &&& s.len() == cars.len()
    &&& cars.len() <= 8
    &&& forall|i: int| 0 <= i < cars.len() ==> #[trigger] load_entry_ok(b, cars[i], s[i], i)
    &&& forall|id: u8| 1 <= id <= 8 ==> (#[trigger] present(b, id) <==> id <= cars.len())
}

/// The cells bearing `id` are exactly the span of the vehicle derived at
/// the anchor `(x, y)`, and that span lies inside the board.
pub open spec fn anchored_geometry_ok(b: Seq<Vec<u8>>, id: u8, x: int, y: int) -> bool {
    let car = derived_car(b, id, x, y);
    let pos = CarPosition { id, position: ((x as u8), (y as u8)) };
    &&& car_in_bounds(car, pos)
    &&& forall|u: int, v: int|
        0 <= u < 6 && 0 <= v < 6 ==> ((#[trigger] cell(b, u, v) == id) <==> occupies(
            car,
            pos,
            u,
            v,
        ))
}

/// The geometry of `id` is coherent at its anchor.
pub open spec fn geometry_ok(b: Seq<Vec<u8>>, id: u8) -> bool {
    exists|x: int, y: int| #[trigger] is_anchor(b, id, x, y) && anchored_geometry_ok(b, id, x, y)
}

/// Ids are contiguous from 1: whenever an id is on the board, so is its
/// predecessor.
pub open spec fn ids_contiguous(b: Seq<Vec<u8>>) -> bool {
    forall|id: u8| 2 <= id <= 8 && #[trigger] present(b, id) ==> present(b, (id - 1) as u8)
}

/// Every vehicle on the board has coherent geometry.
pub open spec fn all_geometry_ok(b: Seq<Vec<u8>>) -> bool {
    forall|id: u8| 1 <= id <= 8 && #[trigger] present(b, id) ==> geometry_ok(b, id)
}

/// The loader accepts exactly the 6x6 grids whose ids are in range and
/// contiguous and whose vehicles have coherent geometry.
pub open spec fn loadable(b: Seq<Vec<u8>>) -> bool {
    &&& is_grid(b)
    &&& ids_in_range(b)
    &&& ids_contiguous(b)
    &&& all_geometry_ok(b)
}

/// The board cell agrees with the vehicle spans at `(u, v)`: an empty
/// cell is covered by no span, a nonzero cell by the span of its own id.
pub open spec fn cover_match(
    b: Seq<Vec<u8>>,
    cars: Seq<Car>,
    s: Seq<CarPosition>,
    u: int,
    v: int,
) -> bool {
    &&& (cell(b, u, v) == 0 ==> cell_free(cars, s, u, v))
    &&& (cell(b, u, v) != 0 ==> 1 <= cell(b, u, v) <= s.len() && occupies(
        cars[cell(b, u, v) - 1],
        s[cell(b, u, v) - 1],
        u,
        v,
    ))
}

/// Both ordered forms of span-disjointness for the pair `(k, l)`.
pub open spec fn mutually_disjoint(cars: Seq<Car>, s: Seq<CarPosition>, k: int, l: int) -> bool {
    disjoint_cars(cars, s, k, l) && disjoint_cars(cars, s, l, k)
}

/// A row-major first cell is unique.
pub proof fn lemma_anchor_unique(b: Seq<Vec<u8>>, id: u8, x1: int, y1: int, x2: int, y2: int)
    requires
        is_anchor(b, id, x1, y1),
        is_anchor(b, id, x2, y2),
    ensures
        x1 == x2 && y1 == y2,
{
    if y1 < y2 || (y1 == y2 && x1 < x2) {
        assert(cell(b, x1, y1) != id);
    } else if y2 < y1 || (y2 == y1 && x2 < x1) {
        assert(cell(b, x2, y2) != id);
    }
}

/// If the geometry of `id` is coherent, it is coherent at any cell known
/// to be its anchor.
pub proof fn lemma_geometry_at_anchor(b: Seq<Vec<u8>>, id: u8, x: int, y: int)
    requires
        is_anchor(b, id, x, y),
        geometry_ok(b, id),
    ensures
        anchored_geometry_ok(b, id, x, y),
{
    let (x2, y2) = choose|x2: int, y2: int|
        #[trigger] is_anchor(b, id, x2, y2) && anchored_geometry_ok(b, id, x2, y2);
    lemma_anchor_unique(b, id, x, y, x2, y2);
}

/// Load idempotence: the loader's output is a function of the board, so
/// loading the same board twice yields an identical vehicle table and an
/// identical initial state.
pub proof fn lemma_load_deterministic(
    b: Seq<Vec<u8>>,
    cars1: Seq<Car>,
    s1: Seq<CarPosition>,
    cars2: Seq<Car>,
    s2: Seq<CarPosition>,
)
    requires
        load_post(b, cars1, s1),
        load_post(b, cars2, s2),
    ensures
        cars1 =~= cars2,
        s1 =~= s2,
{
    if cars1.len() < cars2.len() {
        let id = (cars1.len() + 1) as u8;
        assert(present(b, id) <==> id <= cars1.len());
        assert(present(b, id) <==> id <= cars2.len());
    } else if cars2.len() < cars1.len() {
        let id = (cars2.len() + 1) as u8;
        assert(present(b, id) <==> id <= cars1.len());
        assert(present(b, id) <==> id <= cars2.len());
    }
    assert forall|i: int| 0 <= i < cars1.len() implies cars1[i] == cars2[i] && s1[i] == s2[i] by {
        assert(load_entry_ok(b, cars1[i], s1[i], i));
        assert(load_entry_ok(b, cars2[i], s2[i], i));
        lemma_anchor_unique(
            b,
            (i + 1) as u8,
            s1[i].position.0 as int,
            s1[i].position.1 as int,
            s2[i].position.0 as int,
            s2[i].position.1 as int,
        );
    }
}

/// The `k`-th cell of a vehicle's span, counted from the anchor.
pub open spec fn span_cell(car: Car, pos: CarPosition, k: int) -> (int, int) {
    match car.orientation {
        Orientation::Horizontal => (pos.position.0 + k, pos.position.1 as int),
        Orientation::Vertical => (pos.position.0 as int, pos.position.1 + k),
    }
}

impl Car {
    /// Derives a vehicle's orientation from the board at its anchor:
    /// Horizontal iff the immediate right neighbour bears the same id.
    pub fn get_orientation_from_board(board: &Board, from: &CarPosition) -> (r: Orientation)
        requires
            is_grid(board@),
            from.position.0 < 6,
            from.position.1 < 6,
        ensures
            r == derived_orientation(
                board@,
                from.id,
                from.position.0 as int,
                from.position.1 as int,
            ),
    {
        if from.position.0 < 5 && board[from.position.1 as usize][from.position.0 as usize + 1]
            == from.id {
            Orientation::Horizontal
        } else {
            Orientation::Vertical
        }
    }

    /// Derives a vehicle's length from the board at its anchor: 3 iff the
    /// cell two positions along the orientation axis bears the same id.
    pub fn get_size_from_board(board: &Board, from: &CarPosition) -> (r: u8)
        requires
            is_grid(board@),
            from.position.0 < 6,
            from.position.1 < 6,
        ensures
            r == derived_length(board@, from.id, from.position.0 as int, from.position.1 as int),
            r == 2 || r == 3,
    {
        match Car::get_orientation_from_board(board, from) {
            Orientation::Horizontal => {
                if from.position.0 < 4 && board[from.position.1 as usize][from.position.0 as usize
                    + 2] == from.id {
                    return 3;
                }
            },
            Orientation::Vertical => {
                if from.position.1 < 4 && board[from.position.1 as usize + 2][from.position.0
                    as usize] == from.id {
                    return 3;
                }
            },
        }
        2
    }
}

impl Game {
    /// Finds the first cell bearing `id` in row-major scan order.
    fn find_anchor(board: &Board, id: u8) -> (r: Option<Point>)
        requires
            is_grid(board@),
            id >= 1,
        ensures
            r matches Some(p) ==> is_anchor(board@, id, p.0 as int, p.1 as int),
            r is Some <==> present(board@, id),
    {
        let mut y: usize = 0;
        while y < 6
            invariant
                is_grid(board@),
                y <= 6,
                forall|x2: int, y2: int|
                    0 <= x2 < 6 && 0 <= y2 < y ==> #[trigger] cell(board@, x2, y2) != id,
            decreases 6 - y,
        {
            let mut x: usize = 0;
            while x < 6
                invariant
                    is_grid(board@),
                    y < 6,
                    x <= 6,
                    forall|x2: int, y2: int|
                        0 <= x2 < 6 && 0 <= y2 < y ==> #[trigger] cell(board@, x2, y2) != id,
                    forall|x2: int|
                        0 <= x2 < x ==> #[trigger] cell(board@, x2, y as int) != id,
                decreases 6 - x,
            {
                assert(board@[y as int]@.len() == 6);
                if board[y][x] == id {
                    assert(cell(board@, x as int, y as int) == id);
                    assert(present(board@, id));
                    return Some(((x as u8), (y as u8)));
                }
                x += 1;
            }
            y += 1;
        }
        None
    }

    /// Decides whether the vehicle's span contains the cell `(x, y)` by an
    /// axis-aligned interval test.
    fn covers_cell(car: &Car, pos: &CarPosition, x: u8, y: u8) -> (r: bool)
        requires
            car_in_bounds(*car, *pos),
        ensures
            r == occupies(*car, *pos, x as int, y as int),
    {
        match car.orientation {
            Orientation::Horizontal => y == pos.position.1 && pos.position.0 <= x && x
                < pos.position.0 + car.length,
            Orientation::Vertical => x == pos.position.0 && pos.position.1 <= y && y
                < pos.position.1 + car.length,
        }
    }

    /// Decides whether two vehicles' spans share a cell.
    fn cars_overlap(ci: &Car, pi: &CarPosition, cj: &Car, pj: &CarPosition) -> (r: bool)
        requires
            car_in_bounds(*ci, *pi),
            car_in_bounds(*cj, *pj),
            ci.length >= 1,
        ensures
            r == exists|u: int, v: int|
                #[trigger] occupies(*ci, *pi, u, v) && occupies(*cj, *pj, u, v),
    {
        let mut k: u8 = 0;
        while k < ci.length
            invariant
                car_in_bounds(*ci, *pi),
                car_in_bounds(*cj, *pj),
                k <= ci.length,
                forall|k2: int|
                    0 <= k2 < k ==> !occupies(
                        *cj,
                        *pj,
                        (#[trigger] span_cell(*ci, *pi, k2)).0,
                        span_cell(*ci, *pi, k2).1,
                    ),
            decreases ci.length - k,
        {
            let cx: u8;
            let cy: u8;
            match ci.orientation {
                Orientation::Horizontal => {
                    cx = pi.position.0 + k;
                    cy = pi.position.1;
                },
                Orientation::Vertical => {
                    cx = pi.position.0;
                    cy = pi.position.1 + k;
                },
            }
            assert(cx as int == span_cell(*ci, *pi, k as int).0);
            assert(cy as int == span_cell(*ci, *pi, k as int).1);
            if Self::covers_cell(cj, pj, cx, cy) {
                assert(occupies(*ci, *pi, cx as int, cy as int));
                return true;
            }
            k += 1;
        }
        assert forall|u: int, v: int|
            !(#[trigger] occupies(*ci, *pi, u, v) && occupies(*cj, *pj, u, v)) by {
            if occupies(*ci, *pi, u, v) {
                let k2: int = match ci.orientation {
                    Orientation::Horizontal => u - pi.position.0,
                    Orientation::Vertical => v - pi.position.1,
                };
                assert(span_cell(*ci, *pi, k2) == (u, v));
            }
        }
        false
    }

    /// The id of the first vehicle whose span covers `(x, y)`, or 0 when
    /// no span does.
    fn cover_at(cars: &Vec<Car>, state: &State, x: u8, y: u8) -> (r: u8)
        requires
            cars@.len() == state@.len(),
            cars@.len() <= 8,
            forall|i: int| 0 <= i < cars@.len() ==> car_in_bounds(#[trigger] cars@[i], state@[i]),
        ensures
            r == 0 ==> cell_free(cars@, state@, x as int, y as int),
            r != 0 ==> 1 <= r <= cars@.len() && occupies(
                cars@[r - 1],
                state@[r - 1],
                x as int,
                y as int,
            ),
    {
        let mut i: usize = 0;
        while i < cars.len()
            invariant
                cars@.len() == state@.len(),
                cars@.len() <= 8,
                i <= cars@.len(),
                forall|k: int|
                    0 <= k < i ==> !(#[trigger] occupies(cars@[k], state@[k], x as int, y as int)),
                forall|k: int|
                    0 <= k < cars@.len() ==> car_in_bounds(#[trigger] cars@[k], state@[k]),
            decreases cars@.len() - i,
        {
            if Self::covers_cell(&cars[i], &state[i], x, y) {
                return (i + 1) as u8;
            }
            i += 1;
        }
        0
    }

    /// Builds the vehicle table and the initial state from a board, or
    /// reports exactly why the board is rejected.
    ///
    /// On success the output is pinned by [`load_post`] (so loading is a
    /// function of the board) and forms a well-formed puzzle. The result
    /// is `Ok` if and only if the board is [`loadable`], and each error
    /// variant comes exactly on the boards its documentation describes.
    #[verifier::rlimit(60)]
    pub fn load(board: Board) -> (r: Result<(Game, State), LoadError>)
        ensures
            r matches Ok(p) ==> load_post(board@, p.0.cars@, p.1@) && wf_state(p.0.cars@, p.1@),
            r matches Ok(p) ==> forall|u: int, v: int|
                0 <= u < 6 && 0 <= v < 6 ==> #[trigger] cover_match(board@, p.0.cars@, p.1@, u, v),
            r is Ok <==> loadable(board@),
            r == Result::<(Game, State), LoadError>::Err(LoadError::BadDimensions) <==> !is_grid(
                board@,
            ),
            r == Result::<(Game, State), LoadError>::Err(LoadError::IdOutOfRange) <==> (is_grid(
                board@,
            ) && !ids_in_range(board@)),
            r == Result::<(Game, State), LoadError>::Err(LoadError::MalformedGeometry) <==> (
            is_grid(board@) && ids_in_range(board@) && !(ids_contiguous(board@) && all_geometry_ok(
                board@,
            ))),
    {
        // Dimensions: exactly six rows of six cells.
        if board.len() != 6 {
            return Err(LoadError::BadDimensions);
        }
        let mut yd: usize = 0;
        while yd < 6
            invariant
                board@.len() == 6,
                yd <= 6,
                forall|y2: int| 0 <= y2 < yd ==> (#[trigger] board@[y2])@.len() == 6,
            decreases 6 - yd,
        {
            if board[yd].len() != 6 {
                return Err(LoadError::BadDimensions);
            }
            yd += 1;
        }
        assert(is_grid(board@));

        // Ids: every cell at most 8.
        let mut yr: usize = 0;
        while yr < 6
            invariant
                is_grid(board@),
                yr <= 6,
                forall|x2: int, y2: int|
                    0 <= x2 < 6 && 0 <= y2 < yr ==> #[trigger] cell(board@, x2, y2) <= 8,
            decreases 6 - yr,
        {
            let mut xr: usize = 0;
            while xr < 6
                invariant
                    is_grid(board@),
                    yr < 6,
                    xr <= 6,
                    forall|x2: int, y2: int|
                        0 <= x2 < 6 && 0 <= y2 < yr ==> #[trigger] cell(board@, x2, y2) <= 8,
                    forall|x2: int|
                        0 <= x2 < xr ==> #[trigger] cell(board@, x2, yr as int) <= 8,
                decreases 6 - xr,
            {
                assert(board@[yr as int]@.len() == 6);
                if board[yr][xr] > 8 {
                    assert(cell(board@, xr as int, yr as int) > 8);
                    return Err(LoadError::IdOutOfRange);
                }
                xr += 1;
            }
            yr += 1;
        }
        assert(ids_in_range(board@));

        // Scan for each id's anchor in order and derive its geometry.
        let mut cars: Vec<Car> = Vec::new();
        let mut state: State = Vec::new();
        let mut missing = false;
        let mut id: u8 = 1;
        while id <= 8
            invariant
                is_grid(board@),
                ids_in_range(board@),
                1 <= id <= 9,
                state@.len() == cars@.len(),
                cars@.len() <= id - 1,
                forall|i: int|
                    0 <= i < cars@.len() ==> #[trigger] load_entry_ok(
                        board@,
                        cars@[i],
                        state@[i],
                        i,
                    ),
                forall|id2: u8|
                    1 <= id2 < id ==> (#[trigger] present(board@, id2) <==> id2 <= cars@.len()),
                missing <==> cars@.len() < id - 1,
                missing ==> !present(board@, (id - 1) as u8),
            decreases 9 - id,
        {
            match Self::find_anchor(&board, id) {
                Some(p) => {
                    if missing {
                        proof {
                            assert(!present(board@, (id - 1) as u8));
                            assert(!ids_contiguous(board@));
                        }
                        return Err(LoadError::MalformedGeometry);
                    }
                    let pos = CarPosition { id, position: p };
                    let length = Car::get_size_from_board(&board, &pos);
                    let orientation = Car::get_orientation_from_board(&board, &pos);
                    let car = Car { id, length, orientation };
                    let ghost cars0 = cars@;
                    let ghost state0 = state@;
                    cars.push(car);
                    state.push(pos);
                    proof {
                        assert(load_entry_ok(board@, car, pos, id - 1));
                        assert forall|i: int|
                            0 <= i < cars@.len() implies #[trigger] load_entry_ok(
                            board@,
                            cars@[i],
                            state@[i],
                            i,
                        ) by {
                            if i < cars0.len() {
                                assert(cars@[i] == cars0[i]);
                                assert(state@[i] == state0[i]);
                            }
                        }
                    }
                },
                None => {
                    missing = true;
                },
            }
            id += 1;
        }
        proof {
            assert(ids_contiguous(board@));
        }

        // Geometry: every derived span must lie inside the board.
        let mut ib: usize = 0;
        while ib < cars.len()
            invariant
                load_post(board@, cars@, state@),
                ib <= cars@.len(),
                forall|k: int|
                    0 <= k < ib ==> car_in_bounds(#[trigger] cars@[k], state@[k]),
            decreases cars@.len() - ib,
        {
            let car = cars[ib];
            let pos = state[ib];
            proof {
                assert(load_entry_ok(board@, cars@[ib as int], state@[ib as int], ib as int));
                assert(car.length == 2 || car.length == 3);
                assert(pos.position.0 < 6 && pos.position.1 < 6);
            }
            let fits: bool = match car.orientation {
                Orientation::Horizontal => pos.position.0 + car.length <= 6 && pos.position.1 < 6,
                Orientation::Vertical => pos.position.0 < 6 && pos.position.1 + car.length <= 6,
            };
            if !fits {
                proof {
                    let idb = (ib + 1) as u8;
                    assert(present(board@, idb));
                    if geometry_ok(board@, idb) {
                        lemma_geometry_at_anchor(
                            board@,
                            idb,
                            pos.position.0 as int,
                            pos.position.1 as int,
                        );
                        assert(car_in_bounds(car, pos));
                    }
                    assert(!all_geometry_ok(board@));
                }
                return Err(LoadError::MalformedGeometry);
            }
            ib += 1;
        }

        // Geometry: spans must be pairwise disjoint.
        let mut ip: usize = 0;
        while ip < cars.len()
            invariant
                load_post(board@, cars@, state@),
                ip <= cars@.len(),
                forall|k: int|
                    0 <= k < cars@.len() ==> car_in_bounds(#[trigger] cars@[k], state@[k]),
                forall|k: int, l: int|
                    0 <= k < ip && 0 <= l < cars@.len() && k != l ==> #[trigger] mutually_disjoint(
                        cars@,
                        state@,
                        k,
                        l,
                    ),
            decreases cars@.len() - ip,
        {
            let mut jp: usize = ip + 1;
            while jp < cars.len()
                invariant
                    load_post(board@, cars@, state@),
                    ip < cars@.len(),
                    ip < jp <= cars@.len(),
                    forall|k: int|
                        0 <= k < cars@.len() ==> car_in_bounds(#[trigger] cars@[k], state@[k]),
                    forall|k: int, l: int|
                        0 <= k < ip && 0 <= l < cars@.len() && k != l
                            ==> #[trigger] mutually_disjoint(cars@, state@, k, l),
                    forall|l: int|
                        ip < l < jp ==> #[trigger] mutually_disjoint(cars@, state@, ip as int, l),
                decreases cars@.len() - jp,
            {
                proof {
                    assert(load_entry_ok(board@, cars@[ip as int], state@[ip as int], ip as int));
                    assert(load_entry_ok(board@, cars@[jp as int], state@[jp as int], jp as int));
                }
                if Self::cars_overlap(&cars[ip], &state[ip], &cars[jp], &state[jp]) {
                    proof {
                        let (u, v) = choose|u: int, v: int|
                            #[trigger] occupies(cars@[ip as int], state@[ip as int], u, v)
                                && occupies(cars@[jp as int], state@[jp as int], u, v);
                        let idi = (ip + 1) as u8;
                        let idj = (jp + 1) as u8;
                        assert(present(board@, idi));
                        assert(present(board@, idj));
                        if geometry_ok(board@, idi) && geometry_ok(board@, idj) {
                            lemma_geometry_at_anchor(
                                board@,
                                idi,
                                state@[ip as int].position.0 as int,
                                state@[ip as int].position.1 as int,
                            );
                            lemma_geometry_at_anchor(
                                board@,
                                idj,
                                state@[jp as int].position.0 as int,
                                state@[jp as int].position.1 as int,
                            );
                            assert(0 <= u < 6 && 0 <= v < 6);
                            assert(cell(board@, u, v) == idi);
                            assert(cell(board@, u, v) == idj);
                        }
                        assert(!all_geometry_ok(board@));
                    }
                    return Err(LoadError::MalformedGeometry);
                }
                proof {
                    assert forall|u: int, v: int|
                        !(#[trigger] occupies(cars@[ip as int], state@[ip as int], u, v)
                            && occupies(cars@[jp as int], state@[jp as int], u, v)) by {}
                    assert(disjoint_cars(cars@, state@, ip as int, jp as int));
                    assert forall|u: int, v: int|
                        !(#[trigger] occupies(cars@[jp as int], state@[jp as int], u, v)
                            && occupies(cars@[ip as int], state@[ip as int], u, v)) by {}
                    assert(disjoint_cars(cars@, state@, jp as int, ip as int));
                    assert(mutually_disjoint(cars@, state@, ip as int, jp as int));
                }
                jp += 1;
            }
            proof {
                assert forall|k: int, l: int|
                    0 <= k < ip + 1 && 0 <= l < cars@.len() && k != l implies
                    #[trigger] mutually_disjoint(cars@, state@, k, l) by {
                    if k < ip {
                        assert(mutually_disjoint(cars@, state@, k, l));
                    } else if l > ip {
                        assert(mutually_disjoint(cars@, state@, ip as int, l));
                    } else {
                        assert(mutually_disjoint(cars@, state@, l, ip as int));
                        assert(disjoint_cars(cars@, state@, ip as int, l));
                        assert(disjoint_cars(cars@, state@, l, ip as int));
                    }
                }
            }
            ip += 1;
        }
        proof {
            assert forall|k: int, l: int|
                0 <= k < cars@.len() && 0 <= l < cars@.len() && k != l implies
                #[trigger] disjoint_cars(cars@, state@, k, l) by {
                assert(mutually_disjoint(cars@, state@, k, l));
            }
        }

        // Geometry: the derived spans must reproduce the board exactly.
        let mut yc: usize = 0;
        while yc < 6
            invariant
                load_post(board@, cars@, state@),
                yc <= 6,
                forall|k: int|
                    0 <= k < cars@.len() ==> car_in_bounds(#[trigger] cars@[k], state@[k]),
                forall|k: int, l: int|
                    0 <= k < cars@.len() && 0 <= l < cars@.len() && k != l
                        ==> #[trigger] disjoint_cars(cars@, state@, k, l),
                forall|u: int, v: int|
                    0 <= u < 6 && 0 <= v < yc ==> #[trigger] cover_match(
                        board@,
                        cars@,
                        state@,
                        u,
                        v,
                    ),
            decreases 6 - yc,
        {
            let mut xc: usize = 0;
            while xc < 6
                invariant
                    load_post(board@, cars@, state@),
                    yc < 6,
                    xc <= 6,
                    forall|k: int|
                        0 <= k < cars@.len() ==> car_in_bounds(#[trigger] cars@[k], state@[k]),
                    forall|k: int, l: int|
                        0 <= k < cars@.len() && 0 <= l < cars@.len() && k != l
                            ==> #[trigger] disjoint_cars(cars@, state@, k, l),
                    forall|u: int, v: int|
                        0 <= u < 6 && 0 <= v < yc ==> #[trigger] cover_match(
                            board@,
                            cars@,
                            state@,
                            u,
                            v,
                        ),
                    forall|u: int|
                        0 <= u < xc ==> #[trigger] cover_match(
                            board@,
                            cars@,
                            state@,
                            u,
                            yc as int,
                        ),
                decreases 6 - xc,
            {
                let expected = Self::cover_at(&cars, &state, xc as u8, yc as u8);
                assert(board@[yc as int]@.len() == 6);
                let actual = board[yc][xc];
                if actual != expected {
                    proof {
                        let u = xc as int;
                        let v = yc as int;
                        let bid = cell(board@, u, v);
                        if all_geometry_ok(board@) {
                            if expected == 0 {
                                assert(bid != 0);
                                assert(present(board@, bid));
                                let i3 = bid - 1;
                                assert(load_entry_ok(board@, cars@[i3], state@[i3], i3));
                                assert(geometry_ok(board@, bid));
                                lemma_geometry_at_anchor(
                                    board@,
                                    bid,
                                    state@[i3].position.0 as int,
                                    state@[i3].position.1 as int,
                                );
                                assert(occupies(cars@[i3], state@[i3], u, v));
                                assert(cell_free(cars@, state@, u, v));
                            } else {
                                let i3 = expected - 1;
                                assert(occupies(cars@[i3], state@[i3], u, v));
                                assert(present(board@, expected));
                                assert(load_entry_ok(board@, cars@[i3], state@[i3], i3));
                                assert(geometry_ok(board@, expected));
                                lemma_geometry_at_anchor(
                                    board@,
                                    expected,
                                    state@[i3].position.0 as int,
                                    state@[i3].position.1 as int,
                                );
                                assert(cell(board@, u, v) == expected);
                            }
                        }
                        assert(!all_geometry_ok(board@));
                    }
                    return Err(LoadError::MalformedGeometry);
                }
                proof {
                    assert(cover_match(board@, cars@, state@, xc as int, yc as int));
                }
                xc += 1;
            }
            yc += 1;
        }

        // Success: the board is loadable and the derived puzzle is
        // well-formed.
        proof {
            assert forall|idp: u8|
                1 <= idp <= 8 && #[trigger] present(board@, idp) implies geometry_ok(
                board@,
                idp,
            ) by {
                let i4 = idp - 1;
                assert(load_entry_ok(board@, cars@[i4], state@[i4], i4));
                let ax = state@[i4].position.0 as int;
                let ay = state@[i4].position.1 as int;
                let dcar = derived_car(board@, idp, ax, ay);
                let dpos = CarPosition { id: idp, position: ((ax as u8), (ay as u8)) };
                assert(dcar == cars@[i4]);
                assert(dpos == state@[i4]);
                assert forall|u: int, v: int|
                    0 <= u < 6 && 0 <= v < 6 implies ((#[trigger] cell(board@, u, v) == idp)
                    <==> occupies(dcar, dpos, u, v)) by {
                    assert(cover_match(board@, cars@, state@, u, v));
                    if cell(board@, u, v) == idp {
                        assert(occupies(cars@[i4], state@[i4], u, v));
                    }
                    if occupies(cars@[i4], state@[i4], u, v) {
                        let c = cell(board@, u, v);
                        if c == 0 {
                            assert(cell_free(cars@, state@, u, v));
                            assert(false);
                        } else {
                            assert(occupies(cars@[c - 1], state@[c - 1], u, v));
                            if c - 1 != i4 {
                                assert(disjoint_cars(cars@, state@, i4, c - 1));
                                assert(false);
                            }
                        }
                    }
                }
                assert(anchored_geometry_ok(board@, idp, ax, ay));
                assert(is_anchor(board@, idp, ax, ay));
            }
            assert(loadable(board@));
            assert forall|i: int| 0 <= i < cars@.len() implies #[trigger] wf_entry(
                cars@,
                state@,
                i,
            ) by {
                assert(load_entry_ok(board@, cars@[i], state@[i], i));
            }
            assert(wf_state(cars@, state@));
        }
        Ok((Game { cars }, state))
    }

    /// Renders a state back into a grid of ids for diagnostics: each cell
    /// bears the id of the vehicle whose span covers it, or 0.
    pub fn render(&self, state: &State) -> (r: Board)
        requires
            wf_state(self.cars@, state@),
        ensures
            is_grid(r@),
            forall|u: int, v: int|
                0 <= u < 6 && 0 <= v < 6 ==> #[trigger] cover_match(r@, self.cars@, state@, u, v),
    {
        proof {
            assert forall|k: int|
                0 <= k < self.cars@.len() implies car_in_bounds(
                #[trigger] self.cars@[k],
                state@[k],
            ) by {
                assert(wf_entry(self.cars@, state@, k));
            }
        }
        let mut rows: Board = Vec::new();
        let mut y: usize = 0;
        while y < 6
            invariant
                wf_state(self.cars@, state@),
                forall|k: int|
                    0 <= k < self.cars@.len() ==> car_in_bounds(
                        #[trigger] self.cars@[k],
                        state@[k],
                    ),
                y <= 6,
                rows@.len() == y,
                forall|v: int| 0 <= v < y ==> (#[trigger] rows@[v])@.len() == 6,
                forall|u: int, v: int|
                    0 <= u < 6 && 0 <= v < y ==> #[trigger] cover_match(
                        rows@,
                        self.cars@,
                        state@,
                        u,
                        v,
                    ),
            decreases 6 - y,
        {
            let mut row: Vec<u8> = Vec::new();
            let mut x: usize = 0;
            while x < 6
                invariant
                    wf_state(self.cars@, state@),
                    forall|k: int|
                        0 <= k < self.cars@.len() ==> car_in_bounds(
                            #[trigger] self.cars@[k],
                            state@[k],
                        ),
                    y < 6,
                    x <= 6,
                    row@.len() == x,
                    forall|u: int|
                        0 <= u < x ==> ((#[trigger] row@[u] == 0) ==> cell_free(
                            self.cars@,
                            state@,
                            u,
                            y as int,
                        )),
                    forall|u: int|
                        0 <= u < x ==> ((#[trigger] row@[u]) != 0 ==> 1 <= row@[u]
                            <= state@.len() && occupies(
                            self.cars@[row@[u] - 1],
                            state@[row@[u] - 1],
                            u,
                            y as int,
                        )),
                decreases 6 - x,
            {
                let id = Self::cover_at(&self.cars, state, x as u8, y as u8);
                row.push(id);
                x += 1;
            }
            let ghost rows0 = rows@;
            rows.push(row);
            proof {
                assert forall|u: int, v: int|
                    0 <= u < 6 && 0 <= v < y + 1 implies #[trigger] cover_match(
                    rows@,
                    self.cars@,
                    state@,
                    u,
                    v,
                ) by {
                    if v < y {
                        assert(rows@[v] == rows0[v]);
                        assert(cover_match(rows0, self.cars@, state@, u, v));
                        assert(cell(rows@, u, v) == cell(rows0, u, v));
                    } else {
                        assert(cell(rows@, u, v) == row@[u]);
                    }
                }
            }
            y += 1;
        }
        rows
    }
}

} // verus!
