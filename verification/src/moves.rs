//! The move generator and the small geometric helpers it rests on.
//!
//! [`Game::get_moves`] enumerates exactly the legal single-cell moves of a
//! state: every returned pair carries a legal step and the stepped state,
//! every legal step appears, and the pairs are ordered by the move-priority
//! heuristic [`spec_score`] (ascending, so that a stack-based search that
//! pops from the back explores the highest-priority move first).

use vstd::prelude::*;

use crate::model::{
    apply_step, car_in_bounds, cell_free, dest_cell, lemma_step_preserves_wf, moved_anchor,
    occupies, spec_winner, step_ok, wf_entry, wf_state, win_entry, Car, CarPosition, Direction,
    Game, Point, State, Step,
};

verus! {

/// Move-priority heuristic: a rightward move of the target vehicle scores
/// highest, a leftward move of the target vehicle lowest, every other move
/// is neutral. Successors are sorted by ascending score, so the search,
/// which expands the last entry first, tries the target's rightward move
/// before anything else.
pub open spec fn spec_score(step: Step) -> int {
    if step.0 == 1 && step.1 == Direction::Right {
        2
    } else if step.0 == 1 && step.1 == Direction::Left {
        0
    } else {
        1
    }
}

/// The order in which candidate directions are generated.
pub open spec fn direction_index(d: Direction) -> int {
    match d {
        Direction::Right => 0,
        Direction::Down => 1,
        Direction::Up => 2,
        Direction::Left => 3,
    }
}

/// The pair is a legal successor of `s`: its step is legal in `s`, its
/// state is exactly the stepped state, and that state is well-formed.
pub open spec fn legal_successor(cars: Seq<Car>, s: Seq<CarPosition>, p: (State, Step)) -> bool {
    &&& step_ok(cars, s, p.1)
    &&& p.0@ == apply_step(s, p.1)
    &&& wf_state(cars, p.0@)
}

/// Some entry of `moves` carries the step `st`.
pub open spec fn has_move(moves: Seq<(State, Step)>, st: Step) -> bool {
    exists|i: int| 0 <= i < moves.len() && (#[trigger] moves[i]).1 == st
}

/// Some entry of `moves` has the same step and the same state contents as
/// `p`.
pub open spec fn entry_in(moves: Seq<(State, Step)>, p: (State, Step)) -> bool {
    exists|i: int|
        0 <= i < moves.len() && (#[trigger] moves[i]).1 == p.1 && moves[i].0@ == p.0@
}

/// Appending an entry keeps every step already present.
proof fn lemma_push_keeps_has_move(moves: Seq<(State, Step)>, p0: (State, Step), st: Step)
    requires
        has_move(moves, st),
    ensures
        has_move(moves.push(p0), st),
{
    let i = choose|i: int| 0 <= i < moves.len() && (#[trigger] moves[i]).1 == st;
    assert(moves.push(p0)[i] == moves[i]);
}

/// Appending an entry keeps every entry already present.
proof fn lemma_push_keeps_entry_in(moves: Seq<(State, Step)>, p0: (State, Step), p: (State, Step))
    requires
        entry_in(moves, p),
    ensures
        entry_in(moves.push(p0), p),
{
    let i = choose|i: int|
        0 <= i < moves.len() && (#[trigger] moves[i]).1 == p.1 && moves[i].0@ == p.0@;
    assert(moves.push(p0)[i] == moves[i]);
}

impl Car {
    /// True iff the target vehicle (id 1) stands on the exit cell `(4, 2)`.
    pub fn winner(state: &State) -> (r: bool)
        ensures
            r == spec_winner(state@),
    {
        let mut i: usize = 0;
        while i < state.len()
            invariant
                i <= state@.len(),
                forall|j: int| 0 <= j < i ==> !(#[trigger] win_entry(state@, j)),
            decreases state@.len() - i,
        {
            let c = state[i];
            if c.id == 1 && c.position.0 == 4 && c.position.1 == 2 {
                assert(win_entry(state@, i as int));
                return true;
            }
            i += 1;
        }
        false
    }

    /// The far end of the vehicle's span: its rightmost (horizontal) or
    /// bottom (vertical) occupied cell.
    pub fn get_end(car: &Car, position: &CarPosition) -> (r: Point)
        requires
            car.length >= 1,
            car_in_bounds(*car, *position),
        ensures
            occupies(*car, *position, r.0 as int, r.1 as int),
            match car.orientation {
                crate::model::Orientation::Horizontal => r.0 == position.position.0 + car.length
                    - 1 && r.1 == position.position.1,
                crate::model::Orientation::Vertical => r.0 == position.position.0 && r.1
                    == position.position.1 + car.length - 1,
            },
    {
        match car.orientation {
            crate::model::Orientation::Horizontal => (
                position.position.0 + car.length - 1,
                position.position.1,
            ),
            crate::model::Orientation::Vertical => (
                position.position.0,
                position.position.1 + car.length - 1,
            ),
        }
    }

    /// All cells of the vehicle's span, anchor first.
    pub fn get_positions(car: &Car, position: &CarPosition) -> (r: Vec<Point>)
        requires
            car_in_bounds(*car, *position),
        ensures
            r@.len() == car.length,
            forall|k: int|
                0 <= k < r@.len() ==> occupies(*car, *position, #[trigger] r@[k].0 as int, r@[k].1 as int),
            forall|k: int|
                0 <= k < r@.len() ==> match car.orientation {
                    crate::model::Orientation::Horizontal => #[trigger] r@[k] == ((
                        (position.position.0 + k) as u8,
                        position.position.1,
                    )),
                    crate::model::Orientation::Vertical => #[trigger] r@[k] == ((
                        position.position.0,
                        (position.position.1 + k) as u8,
                    )),
                },
    {
        let mut positions: Vec<Point> = Vec::new();
        match car.orientation {
            crate::model::Orientation::Horizontal => {
                let mut i: u8 = 0;
                while i < car.length
                    invariant
                        i <= car.length,
                        car_in_bounds(*car, *position),
                        car.orientation == crate::model::Orientation::Horizontal,
                        positions@.len() == i,
                        forall|k: int|
                            0 <= k < i ==> #[trigger] positions@[k] == ((
                                (position.position.0 + k) as u8,
                                position.position.1,
                            )),
                    decreases car.length - i,
                {
                    let x = position.position.0 + i;
                    let y = position.position.1;
                    positions.push((x, y));
                    i += 1;
                }
            },
            crate::model::Orientation::Vertical => {
                let mut i: u8 = 0;
                while i < car.length
                    invariant
                        i <= car.length,
                        car_in_bounds(*car, *position),
                        car.orientation == crate::model::Orientation::Vertical,
                        positions@.len() == i,
                        forall|k: int|
                            0 <= k < i ==> #[trigger] positions@[k] == ((
                                position.position.0,
                                (position.position.1 + k) as u8,
                            )),
                    decreases car.length - i,
                {
                    let x = position.position.0;
                    let y = position.position.1 + i;
                    positions.push((x, y));
                    i += 1;
                }
            },
        }
        positions
    }
}

impl Game {
    /// Axis-aligned interval test: the candidate cell `dest` lies within
    /// the occupied span of the vehicle standing at `other_car`.
    pub fn will_intersect(&self, other_car: CarPosition, dest: Point) -> (r: bool)
        requires
            1 <= other_car.id <= self.cars@.len(),
            self.cars@[other_car.id - 1].length >= 1,
            car_in_bounds(self.cars@[other_car.id - 1], other_car),
        ensures
            r == occupies(self.cars@[other_car.id - 1], other_car, dest.0 as int, dest.1 as int),
    {
        let car = self.cars[(other_car.id - 1) as usize];
        let car_end = Car::get_end(&car, &other_car);

        (dest.0 >= other_car.position.0 && dest.0 <= car_end.0) && (dest.1
            >= other_car.position.1 && dest.1 <= car_end.1)
    }

    /// Computes the move-priority score of one step; see [`spec_score`].
    pub fn score_move(move_step: &Step) -> (r: usize)
        ensures
            r == spec_score(*move_step),
    {
        match move_step.1 {
            Direction::Right => if move_step.0 == 1 {
                2
            } else {
                1
            },
            Direction::Left => if move_step.0 == 1 {
                0
            } else {
                1
            },
            _ => 1,
        }
    }

    /// Attempts the single-cell move of vehicle `idx + 1` in direction
    /// `dir`: returns the stepped state exactly when the move is legal.
    fn try_step(&self, state: &State, idx: usize, dir: Direction) -> (r: Option<(State, Step)>)
        requires
            wf_state(self.cars@, state@),
            idx < state@.len(),
        ensures
            r is Some <==> step_ok(self.cars@, state@, (((idx + 1) as u8), dir)),
            r matches Some(p) ==> p.1.0 == idx + 1 && p.1.1 == dir && p.0@ == apply_step(
                state@,
                (((idx + 1) as u8), dir),
            ),
    {
        let car = self.cars[idx];
        let pos = state[idx];
        assert(wf_entry(self.cars@, state@, idx as int));
        let ghost st: Step = (((idx + 1) as u8), dir);

        // Boundary rule: bail out if the vehicle is flush against the edge
        // it would slide towards, or the direction does not fit its axis.
        let dest: Point;
        let new_anchor: Point;
        match (car.orientation, dir) {
            (crate::model::Orientation::Vertical, Direction::Up) => {
                if pos.position.1 == 0 {
                    return None;
                }
                dest = (pos.position.0, pos.position.1 - 1);
                new_anchor = dest;
            },
            (crate::model::Orientation::Vertical, Direction::Down) => {
                if pos.position.1 + car.length >= 6 {
                    return None;
                }
                dest = (pos.position.0, pos.position.1 + car.length);
                new_anchor = (pos.position.0, pos.position.1 + 1);
            },
            (crate::model::Orientation::Horizontal, Direction::Left) => {
                if pos.position.0 == 0 {
                    return None;
                }
                dest = (pos.position.0 - 1, pos.position.1);
                new_anchor = dest;
            },
            (crate::model::Orientation::Horizontal, Direction::Right) => {
                if pos.position.0 + car.length >= 6 {
                    return None;
                }
                dest = (pos.position.0 + car.length, pos.position.1);
                new_anchor = (pos.position.0 + 1, pos.position.1);
            },
            _ => {
                return None;
            },
        }
        assert(dest.0 as int == dest_cell(self.cars@[idx as int], state@[idx as int], dir).0);
        assert(dest.1 as int == dest_cell(self.cars@[idx as int], state@[idx as int], dir).1);

        // Collision rule: the newly occupied cell must lie in no vehicle's
        // span.
        let mut j: usize = 0;
        while j < state.len()
            invariant
                wf_state(self.cars@, state@),
                idx < state@.len(),
                j <= state@.len(),
                dest.0 as int == dest_cell(self.cars@[idx as int], state@[idx as int], dir).0,
                dest.1 as int == dest_cell(self.cars@[idx as int], state@[idx as int], dir).1,
                forall|k: int|
                    0 <= k < j ==> !(#[trigger] occupies(
                        self.cars@[k],
                        state@[k],
                        dest.0 as int,
                        dest.1 as int,
                    )),
            decreases state@.len() - j,
        {
            assert(wf_entry(self.cars@, state@, j as int));
            if self.will_intersect(state[j], dest) {
                proof {
                    assert(occupies(
                        self.cars@[j as int],
                        state@[j as int],
                        dest.0 as int,
                        dest.1 as int,
                    ));
                    assert(!step_ok(self.cars@, state@, (((idx + 1) as u8), dir)));
                }
                return None;
            }
            j += 1;
        }
        assert(cell_free(self.cars@, state@, dest.0 as int, dest.1 as int));
        assert(step_ok(self.cars@, state@, st));

        // Successor state: a full copy with only the moving vehicle's
        // anchor updated.
        let moved = CarPosition { id: pos.id, position: new_anchor };
        let mut ns: State = Vec::new();
        let mut k: usize = 0;
        while k < state.len()
            invariant
                idx < state@.len(),
                k <= state@.len(),
                ns@.len() == k,
                moved == moved_anchor(state@[idx as int], dir),
                forall|m: int|
                    0 <= m < k ==> #[trigger] ns@[m] == (if m == idx {
                        moved_anchor(state@[idx as int], dir)
                    } else {
                        state@[m]
                    }),
            decreases state@.len() - k,
        {
            if k == idx {
                ns.push(moved);
            } else {
                ns.push(state[k]);
            }
            k += 1;
        }
        assert(ns@ =~= apply_step(state@, st));
        Some((ns, ((idx + 1) as u8, dir)))
    }

    /// Arranges the candidate moves by ascending move-priority score,
    /// keeping exactly the same entries.
    fn order_moves(cand: &Vec<(State, Step)>) -> (r: Vec<(State, Step)>)
        requires
            forall|i: int, j: int|
                0 <= i < j < cand@.len() ==> (#[trigger] cand@[i]).1 != (#[trigger] cand@[j]).1,
        ensures
            forall|i: int| 0 <= i < r@.len() ==> entry_in(cand@, #[trigger] r@[i]),
            forall|j: int| 0 <= j < cand@.len() ==> entry_in(r@, #[trigger] cand@[j]),
            forall|i: int, j: int|
                0 <= i <= j < r@.len() ==> spec_score(r@[i].1) <= spec_score(r@[j].1),
            forall|i: int, j: int|
                0 <= i < j < r@.len() ==> (#[trigger] r@[i]).1 != (#[trigger] r@[j]).1,
    {
        let mut r: Vec<(State, Step)> = Vec::new();
        let ghost mut origins: Seq<int> = Seq::empty();
        let mut pass: usize = 0;
        while pass < 3
            invariant
                pass <= 3,
                forall|i: int|
                    0 <= i < r@.len() ==> entry_in(cand@, #[trigger] r@[i]) && spec_score(r@[i].1)
                        < pass,
                forall|j: int|
                    0 <= j < cand@.len() && spec_score(#[trigger] cand@[j].1) < pass ==> entry_in(
                        r@,
                        cand@[j],
                    ),
                forall|i: int, j: int|
                    0 <= i <= j < r@.len() ==> spec_score(r@[i].1) <= spec_score(r@[j].1),
                forall|i: int, j: int|
                    0 <= i < j < cand@.len() ==> (#[trigger] cand@[i]).1 != (#[trigger] cand@[j]).1,
                origins.len() == r@.len(),
                forall|i: int|
                    0 <= i < r@.len() ==> 0 <= #[trigger] origins[i] < cand@.len()
                        && cand@[origins[i]].1 == r@[i].1,
                forall|i1: int, i2: int|
                    0 <= i1 < i2 < origins.len() ==> origins[i1] != origins[i2],
            decreases 3 - pass,
        {
            let mut j: usize = 0;
            while j < cand.len()
                invariant
                    pass < 3,
                    j <= cand@.len(),
                    forall|i: int|
                        0 <= i < r@.len() ==> entry_in(cand@, #[trigger] r@[i]) && spec_score(
                            r@[i].1,
                        ) <= pass,
                    forall|jj: int|
                        0 <= jj < cand@.len() && spec_score(#[trigger] cand@[jj].1) < pass
                            ==> entry_in(r@, cand@[jj]),
                    forall|jj: int|
                        0 <= jj < j && spec_score(#[trigger] cand@[jj].1) == pass ==> entry_in(
                            r@,
                            cand@[jj],
                        ),
                    forall|i: int, jx: int|
                        0 <= i <= jx < r@.len() ==> spec_score(r@[i].1) <= spec_score(r@[jx].1),
                    forall|i1: int, i2: int|
                        0 <= i1 < i2 < cand@.len() ==> (#[trigger] cand@[i1]).1 != (
                        #[trigger] cand@[i2]).1,
                    origins.len() == r@.len(),
                    forall|i: int|
                        0 <= i < r@.len() ==> 0 <= #[trigger] origins[i] < cand@.len()
                            && cand@[origins[i]].1 == r@[i].1,
                    forall|i: int|
                        0 <= i < r@.len() ==> spec_score(r@[i].1) < pass || #[trigger] origins[i]
                            < j,
                    forall|i1: int, i2: int|
                        0 <= i1 < i2 < origins.len() ==> origins[i1] != origins[i2],
                decreases cand@.len() - j,
            {
                if Game::score_move(&cand[j].1) == pass {
                    let copied: (State, Step) = (Self::clone_state(&cand[j].0), cand[j].1);
                    let ghost r0 = r@;
                    r.push(copied);
                    proof {
                        assert(r@ == r0.push(copied));
                        assert(r@[r@.len() - 1] == copied);
                        assert(entry_in(cand@, copied));
                        let ghost origins0 = origins;
                        origins = origins.push(j as int);
                        assert forall|i: int|
                            0 <= i < r@.len() implies 0 <= #[trigger] origins[i] < cand@.len()
                            && cand@[origins[i]].1 == r@[i].1 by {
                            if i < r0.len() {
                                assert(origins[i] == origins0[i]);
                                assert(r@[i] == r0[i]);
                            } else {
                                assert(origins[i] == j as int);
                            }
                        }
                        assert forall|i1: int, i2: int|
                            0 <= i1 < i2 < origins.len() implies origins[i1] != origins[i2] by {
                            if i2 < origins0.len() {
                                assert(origins[i1] == origins0[i1]);
                                assert(origins[i2] == origins0[i2]);
                            } else {
                                assert(origins[i1] == origins0[i1]);
                                assert(origins[i2] == j as int);
                                assert(r0[i1] == r@[i1]);
                                if origins0[i1] == j as int {
                                    assert(spec_score(r@[i1].1) == pass);
                                }
                            }
                        }
                        assert forall|i: int|
                            0 <= i < r@.len() implies entry_in(cand@, #[trigger] r@[i])
                            && spec_score(r@[i].1) <= pass by {
                            if i < r0.len() {
                                assert(r@[i] == r0[i]);
                            }
                        }
                        assert forall|jj: int|
                            0 <= jj < cand@.len() && spec_score(#[trigger] cand@[jj].1)
                                < pass implies entry_in(r@, cand@[jj]) by {
                            lemma_push_keeps_entry_in(r0, copied, cand@[jj]);
                        }
                        assert forall|jj: int|
                            0 <= jj <= j && spec_score(#[trigger] cand@[jj].1) == pass implies
                            entry_in(r@, cand@[jj]) by {
                            if jj < j {
                                lemma_push_keeps_entry_in(r0, copied, cand@[jj]);
                            } else {
                                assert(entry_in(r@, cand@[j as int]));
                            }
                        }
                    }
                }
                j += 1;
            }
            pass += 1;
        }
        assert forall|j: int| 0 <= j < cand@.len() implies entry_in(r@, #[trigger] cand@[j]) by {
            assert(spec_score(cand@[j].1) < 3);
        }
        assert forall|i: int, j: int|
            0 <= i < j < r@.len() implies (#[trigger] r@[i]).1 != (#[trigger] r@[j]).1 by {
            let o1 = origins[i];
            let o2 = origins[j];
            assert(o1 != o2);
            if o1 < o2 {
                assert(cand@[o1].1 != cand@[o2].1);
            } else {
                assert(cand@[o2].1 != cand@[o1].1);
            }
        }
        r
    }

    /// Copies a state value: every successor is an independent value.
    pub(crate) fn clone_state(s: &State) -> (r: State)
        ensures
            r@ == s@,
    {
        let mut r: State = Vec::new();
        let mut i: usize = 0;
        while i < s.len()
            invariant
                i <= s@.len(),
                r@ == s@.subrange(0, i as int),
            decreases s@.len() - i,
        {
            r.push(s[i]);
            i += 1;
        }
        assert(r@ =~= s@);
        r
    }

    /// Enumerates all legal single-cell moves of `state`, each paired with
    /// its successor state, ordered by ascending move-priority score.
    ///
    /// The contract is exact: every returned pair is a legal successor
    /// (hence well-formed: spans pairwise disjoint and within bounds),
    /// every legal step of `state` appears among the returned pairs, and
    /// each move descriptor appears at most once.
    pub fn get_moves(&self, state: &State) -> (r: Vec<(State, Step)>)
        requires
            wf_state(self.cars@, state@),
        ensures
            forall|i: int|
                0 <= i < r@.len() ==> legal_successor(self.cars@, state@, #[trigger] r@[i]),
            forall|st: Step| #[trigger] step_ok(self.cars@, state@, st) ==> has_move(r@, st),
            forall|i: int, j: int|
                0 <= i <= j < r@.len() ==> spec_score(r@[i].1) <= spec_score(r@[j].1),
            forall|i: int, j: int|
                0 <= i < j < r@.len() ==> (#[trigger] r@[i]).1 != (#[trigger] r@[j]).1,
    {
        let mut cand: Vec<(State, Step)> = Vec::new();
        let mut v: usize = 0;
        while v < state.len()
            invariant
                wf_state(self.cars@, state@),
                v <= state@.len(),
                forall|i: int|
                    0 <= i < cand@.len() ==> legal_successor(self.cars@, state@, #[trigger] cand@[i]),
                forall|st: Step|
                    #[trigger] step_ok(self.cars@, state@, st) && 1 <= st.0 <= v ==> has_move(
                        cand@,
                        st,
                    ),
                forall|i: int| 0 <= i < cand@.len() ==> 1 <= (#[trigger] cand@[i]).1.0 <= v,
                forall|i1: int, i2: int|
                    0 <= i1 < i2 < cand@.len() ==> (#[trigger] cand@[i1]).1 != (
                    #[trigger] cand@[i2]).1,
            decreases state@.len() - v,
        {
            let mut k: usize = 0;
            while k < 4
                invariant
                    wf_state(self.cars@, state@),
                    v < state@.len(),
                    k <= 4,
                    forall|i: int|
                        0 <= i < cand@.len() ==> legal_successor(
                            self.cars@,
                            state@,
                            #[trigger] cand@[i],
                        ),
                    forall|st: Step|
                        #[trigger] step_ok(self.cars@, state@, st) && 1 <= st.0 <= v ==> has_move(
                            cand@,
                            st,
                        ),
                    forall|st: Step|
                        #[trigger] step_ok(self.cars@, state@, st) && st.0 == v + 1
                            && direction_index(st.1) < k ==> has_move(cand@, st),
                    forall|i: int|
                        0 <= i < cand@.len() ==> 1 <= (#[trigger] cand@[i]).1.0 <= v + 1 && (
                        cand@[i].1.0 == v + 1 ==> direction_index(cand@[i].1.1) < k),
                    forall|i1: int, i2: int|
                        0 <= i1 < i2 < cand@.len() ==> (#[trigger] cand@[i1]).1 != (
                        #[trigger] cand@[i2]).1,
                decreases 4 - k,
            {
                let dir = Self::direction_of(k);
                let ghost st_here: Step = (((v + 1) as u8), dir);
                let attempt = self.try_step(state, v, dir);
                let ghost cand0 = cand@;
                if let Some(p) = attempt {
                    proof {
                        lemma_step_preserves_wf(self.cars@, state@, st_here);
                    }
                    cand.push(p);
                }
                proof {
                    assert forall|st: Step|
                        #[trigger] step_ok(self.cars@, state@, st) && st.0 == v + 1
                            && direction_index(st.1) < k + 1 implies has_move(cand@, st) by {
                        if direction_index(st.1) < k {
                            assert(has_move(cand0, st));
                            if cand@ != cand0 {
                                let p0 = cand@[cand@.len() - 1];
                                lemma_push_keeps_has_move(cand0, p0, st);
                            }
                        } else {
                            assert(st.1 == dir);
                            assert(st == st_here);
                            assert((#[trigger] cand@[cand@.len() - 1]).1 == st);
                        }
                    }
                    assert forall|st: Step|
                        #[trigger] step_ok(self.cars@, state@, st) && 1 <= st.0 <= v implies
                        has_move(cand@, st) by {
                        assert(has_move(cand0, st));
                        if cand@ != cand0 {
                            let p0 = cand@[cand@.len() - 1];
                            lemma_push_keeps_has_move(cand0, p0, st);
                        }
                    }
                    assert forall|i: int|
                        0 <= i < cand@.len() implies legal_successor(
                        self.cars@,
                        state@,
                        #[trigger] cand@[i],
                    ) by {
                        if i < cand0.len() {
                            assert(cand@[i] == cand0[i]);
                            assert(legal_successor(self.cars@, state@, cand0[i]));
                        }
                    }
                    assert forall|i: int|
                        0 <= i < cand@.len() implies 1 <= (#[trigger] cand@[i]).1.0 <= v + 1 && (
                        cand@[i].1.0 == v + 1 ==> direction_index(cand@[i].1.1) < k + 1) by {
                        if i < cand0.len() {
                            assert(cand@[i] == cand0[i]);
                        } else {
                            assert(cand@[i].1.0 == v + 1 && cand@[i].1.1 == dir);
                        }
                    }
                    assert forall|i1: int, i2: int|
                        0 <= i1 < i2 < cand@.len() implies (#[trigger] cand@[i1]).1 != (
                    #[trigger] cand@[i2]).1 by {
                        assert(cand@[i1] == cand0[i1]);
                        if i2 < cand0.len() {
                            assert(cand@[i2] == cand0[i2]);
                        } else {
                            assert(cand@[i2].1.0 == v + 1 && cand@[i2].1.1 == dir);
                        }
                    }
                }
                k += 1;
            }
            assert forall|st: Step|
                #[trigger] step_ok(self.cars@, state@, st) && st.0 == v + 1 implies has_move(
                cand@,
                st,
            ) by {
                assert(direction_index(st.1) < 4);
            }
            v += 1;
        }
        let r = Self::order_moves(&cand);
        proof {
            assert forall|i: int|
                0 <= i < r@.len() implies legal_successor(self.cars@, state@, #[trigger] r@[i]) by {
                let j = choose|j: int|
                    0 <= j < cand@.len() && (#[trigger] cand@[j]).1 == r@[i].1 && cand@[j].0@
                        == r@[i].0@;
                assert(legal_successor(self.cars@, state@, cand@[j]));
            }
            assert forall|st: Step| #[trigger] step_ok(self.cars@, state@, st) implies has_move(
                r@,
                st,
            ) by {
                assert(has_move(cand@, st));
                let j = choose|j: int| 0 <= j < cand@.len() && (#[trigger] cand@[j]).1 == st;
                assert(entry_in(r@, cand@[j]));
                let i = choose|i: int|
                    0 <= i < r@.len() && (#[trigger] r@[i]).1 == cand@[j].1 && r@[i].0@
                        == cand@[j].0@;
                assert(0 <= i < r@.len() && r@[i].1 == st);
            }
        }
        r
    }

    /// The candidate direction generated at position `k`.
    fn direction_of(k: usize) -> (r: Direction)
        requires
            k < 4,
        ensures
            direction_index(r) == k,
    {
        if k == 0 {
            Direction::Right
        } else if k == 1 {
            Direction::Down
        } else if k == 2 {
            Direction::Up
        } else {
            Direction::Left
        }
    }
}

} // verus!
