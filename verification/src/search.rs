//! The state-space search engine.
//!
//! The engine keeps a frontier of `(state, move-history)` pairs and a
//! visited-state set. The frontier is a stack: the entry pushed last is
//! expanded first (depth-first order), so together with the ascending
//! move-priority order of [`crate::moves`] the target vehicle's rightward
//! move is always tried first. A state is marked visited at the moment it
//! is discovered and enqueued, which prevents any state from being
//! expanded twice.
//!
//! The visited set is a list of packed state codes; a state is skipped
//! exactly when its code was recorded before, which the injectivity of
//! the code ([`lemma_state_code_injective`]) turns into exact state
//! membership. That makes the search complete: when the frontier runs
//! dry, the visited set has been proved closed under legal moves and free
//! of winning states, so no legal move sequence at all reaches a win.
//!
//! The search takes an explicit iteration budget so that callers in
//! resource-bounded settings can abort early; the loop consumes one unit
//! of budget per expanded state. Since the codes are distinct values
//! below `64^8`, at most `64^8` states are ever expanded: a budget above
//! that bound provably never runs out.

use vstd::prelude::*;

use vstd::set_lib::{lemma_int_range, lemma_len_subset, set_int_range};

use crate::model::{
    apply_step, lemma_replay_push, replay_ok, replay_result, spec_winner, step_ok, wf_entry,
    wf_state, Car, CarPosition, Game, State, Step,
};
use crate::moves::legal_successor;

verus! {

/// The number of states that can bear distinct codes: `64^8`. No search
/// can expand more states than this.
pub const CODE_SPACE: u64 = 281_474_976_710_656;

/// Iteration budget used by [`Game::solve`]: one more than [`CODE_SPACE`],
/// so the engine provably never runs out of budget and every search ends
/// in `Solved` or `Exhausted`.
pub const DEFAULT_BUDGET: u64 = 281_474_976_710_657;

/// Outcome of a bounded search.
#[derive(Debug)]
pub enum SearchOutcome {
    /// A move sequence that drives the target vehicle to the exit.
    Solved(Vec<Step>),
    /// The frontier ran dry: no legal move sequence reaches a winning
    /// state, so the puzzle has no solution.
    Exhausted,
    /// The iteration budget ran out before the frontier did.
    OutOfBudget,
}

/// A frontier entry pairs a well-formed state with a legal move history
/// that reaches it from the initial state.
pub open spec fn frontier_entry_ok(
    cars: Seq<Car>,
    init: Seq<CarPosition>,
    e: (State, Vec<Step>),
) -> bool {
    &&& wf_state(cars, e.0@)
    &&& replay_ok(cars, init, e.1@)
    &&& replay_result(cars, init, e.1@) == e.0@
}

/// Every anchor lies inside the board.
pub open spec fn state_bounded(s: Seq<CarPosition>) -> bool {
    forall|i: int| 0 <= i < s.len() ==> (#[trigger] s[i]).position.0 < 6 && s[i].position.1 < 6
}

/// The code of one anchor: a base-64 digit.
pub open spec fn anchor_code(p: CarPosition) -> int {
    p.position.0 + 8 * p.position.1
}

/// A state packed into one integer, one base-64 digit per anchor.
pub open spec fn state_code(s: Seq<CarPosition>) -> int
    decreases s.len(),
{
    if s.len() == 0 {
        0
    } else {
        anchor_code(s[0]) + 64 * state_code(s.drop_first())
    }
}

/// `64^n`, the range of an `n`-digit code.
pub open spec fn pow64(n: int) -> int
    decreases n,
{
    if n <= 0 {
        1
    } else {
        64 * pow64(n - 1)
    }
}

/// `64^n` is positive.
proof fn lemma_pow64_pos(n: int)
    ensures
        pow64(n) >= 1,
    decreases n,
{
    if n > 0 {
        lemma_pow64_pos(n - 1);
    }
}

/// `64^n` grows with `n`.
proof fn lemma_pow64_mono(a: int, b: int)
    requires
        0 <= a <= b,
    ensures
        pow64(a) <= pow64(b),
    decreases b,
{
    if a < b {
        lemma_pow64_mono(a, b - 1);
        lemma_pow64_pos(b - 1);
    }
}

/// The code is below `64^n`, so it fits a machine word for up to eight
/// vehicles.
proof fn lemma_state_code_bound(s: Seq<CarPosition>)
    requires
        state_bounded(s),
    ensures
        0 <= state_code(s) < pow64(s.len() as int),
    decreases s.len(),
{
    if s.len() > 0 {
        assert(state_bounded(s.drop_first())) by {
            assert forall|i: int|
                0 <= i < s.drop_first().len() implies (#[trigger] s.drop_first()[i]).position.0 < 6
                && s.drop_first()[i].position.1 < 6 by {
                assert(s.drop_first()[i] == s[i + 1]);
            }
        }
        lemma_state_code_bound(s.drop_first());
        assert(0 <= anchor_code(s[0]) < 64);
    }
}

/// Two bounded states of equal length with the same ids and the same
/// code are equal: the code determines every anchor.
proof fn lemma_state_code_injective(s1: Seq<CarPosition>, s2: Seq<CarPosition>)
    requires
        state_bounded(s1),
        state_bounded(s2),
        s1.len() == s2.len(),
        state_code(s1) == state_code(s2),
        forall|i: int| 0 <= i < s1.len() ==> (#[trigger] s1[i]).id == (#[trigger] s2[i]).id,
    ensures
        s1 =~= s2,
    decreases s1.len(),
{
    if s1.len() > 0 {
        assert(0 <= anchor_code(s1[0]) < 64);
        assert(0 <= anchor_code(s2[0]) < 64);
        assert(state_bounded(s1.drop_first()) && state_bounded(s2.drop_first())) by {
            assert forall|i: int|
                0 <= i < s1.drop_first().len() implies (#[trigger] s1.drop_first()[i]).position.0
                < 6 && s1.drop_first()[i].position.1 < 6 by {
                assert(s1.drop_first()[i] == s1[i + 1]);
            }
            assert forall|i: int|
                0 <= i < s2.drop_first().len() implies (#[trigger] s2.drop_first()[i]).position.0
                < 6 && s2.drop_first()[i].position.1 < 6 by {
                assert(s2.drop_first()[i] == s2[i + 1]);
            }
        }
        assert(anchor_code(s1[0]) == anchor_code(s2[0]) && state_code(s1.drop_first())
            == state_code(s2.drop_first()));
        assert(s1[0].position.0 == s2[0].position.0 && s1[0].position.1 == s2[0].position.1);
        assert(s1[0] == s2[0]);
        assert forall|i: int|
            0 <= i < s1.drop_first().len() implies (#[trigger] s1.drop_first()[i]).id == (
        #[trigger] s2.drop_first()[i]).id by {
            assert(s1.drop_first()[i] == s1[i + 1]);
            assert(s2.drop_first()[i] == s2[i + 1]);
        }
        lemma_state_code_injective(s1.drop_first(), s2.drop_first());
        assert forall|i: int| 0 <= i < s1.len() implies #[trigger] s1[i] == s2[i] by {
            if i > 0 {
                assert(s1.drop_first()[i - 1] == s2.drop_first()[i - 1]);
            }
        }
    }
}

/// A list of distinct codes, each below `64^8`, has at most `64^8`
/// entries.
proof fn lemma_distinct_codes_bounded(codes: Seq<u64>)
    requires
        codes.no_duplicates(),
        forall|j: int| 0 <= j < codes.len() ==> #[trigger] codes[j] < 281474976710656,
    ensures
        codes.len() <= 281474976710656,
{
    let ints = codes.map_values(|c: u64| c as int);
    assert(ints.no_duplicates()) by {
        assert forall|i: int, j: int|
            0 <= i < ints.len() && 0 <= j < ints.len() && i != j implies ints[i] != ints[j] by {
            assert(codes[i] != codes[j]);
        }
    }
    ints.unique_seq_to_set();
    assert(ints.to_set().subset_of(set_int_range(0, 281474976710656))) by {
        assert forall|x: int| ints.to_set().contains(x) implies set_int_range(
            0,
            281474976710656,
        ).contains(x) by {
            let i = choose|i: int| 0 <= i < ints.len() && ints[i] == x;
            assert(codes[i] < 281474976710656);
        }
    }
    lemma_int_range(0, 281474976710656);
    lemma_len_subset(ints.to_set(), set_int_range(0, 281474976710656));
}

/// A set of states closed under legal single-cell moves.
pub open spec fn closed_under_steps(cars: Seq<Car>, vs: Set<Seq<CarPosition>>) -> bool {
    forall|v: Seq<CarPosition>, step: Step|
        vs.contains(v) && step_ok(cars, v, step) ==> #[trigger] vs.contains(apply_step(v, step))
}

/// Some frontier entry holds the state `v`.
pub open spec fn in_frontier(fr: Seq<(State, Vec<Step>)>, v: Seq<CarPosition>) -> bool {
    exists|k: int| 0 <= k < fr.len() && (#[trigger] fr[k]).0@ == v
}

/// The state has been fully expanded: it is not a winning state, and
/// every state one legal move away is already in the set.
pub open spec fn expanded_ok(cars: Seq<Car>, vs: Set<Seq<CarPosition>>, v: Seq<CarPosition>) -> bool {
    &&& !spec_winner(v)
    &&& forall|step: Step| #[trigger] step_ok(cars, v, step) ==> vs.contains(apply_step(v, step))
}

/// A well-formed state keeps every anchor inside the board.
proof fn lemma_wf_bounded(cars: Seq<Car>, s: Seq<CarPosition>)
    requires
        wf_state(cars, s),
    ensures
        state_bounded(s),
        s.len() == cars.len(),
{
    assert forall|i: int|
        0 <= i < s.len() implies (#[trigger] s[i]).position.0 < 6 && s[i].position.1 < 6 by {
        assert(wf_entry(cars, s, i));
    }
}

/// Whatever a legal move sequence reaches from a member of a move-closed
/// set is again a member.
pub proof fn lemma_closed_reaches(
    cars: Seq<Car>,
    vs: Set<Seq<CarPosition>>,
    s0: Seq<CarPosition>,
    steps: Seq<Step>,
)
    requires
        vs.contains(s0),
        closed_under_steps(cars, vs),
        replay_ok(cars, s0, steps),
    ensures
        vs.contains(replay_result(cars, s0, steps)),
    decreases steps.len(),
{
    if steps.len() > 0 {
        assert(vs.contains(apply_step(s0, steps[0])));
        lemma_closed_reaches(cars, vs, apply_step(s0, steps[0]), steps.drop_first());
    }
}

impl Game {
    /// Copies a move history; every frontier entry owns its history.
    fn clone_steps(h: &Vec<Step>) -> (r: Vec<Step>)
        ensures
            r@ == h@,
    {
        let mut r: Vec<Step> = Vec::new();
        let mut i: usize = 0;
        while i < h.len()
            invariant
                i <= h@.len(),
                r@ == h@.subrange(0, i as int),
            decreases h@.len() - i,
        {
            r.push(h[i]);
            i += 1;
        }
        assert(r@ =~= h@);
        r
    }

    /// Packs a state's anchors into one machine word, anchor 0 in the
    /// lowest digit.
    fn encode(state: &State) -> (r: u64)
        requires
            state@.len() <= 8,
            state_bounded(state@),
        ensures
            r == state_code(state@),
            r < 281474976710656,
    {
        proof {
            assert(pow64(0) == 1);
            assert(pow64(1) == 64);
            assert(pow64(2) == 4096);
            assert(pow64(3) == 262144);
            assert(pow64(4) == 16777216);
            assert(pow64(5) == 1073741824);
            assert(pow64(6) == 68719476736);
            assert(pow64(7) == 4398046511104);
            assert(pow64(8) == 281474976710656);
        }
        let mut acc: u64 = 0;
        let mut i: usize = state.len();
        proof {
            assert(state@.skip(i as int) =~= Seq::<CarPosition>::empty());
        }
        while i > 0
            invariant
                i <= state@.len() <= 8,
                state_bounded(state@),
                acc == state_code(state@.skip(i as int)),
                acc < pow64(state@.len() - i),
                pow64(state@.len() - i) <= 281474976710656,
                pow64(8) == 281474976710656,
            decreases i,
        {
            i -= 1;
            let d: u64 = state[i].position.0 as u64 + 8 * state[i].position.1 as u64;
            proof {
                assert(d == anchor_code(state@[i as int]));
                assert(d < 64);
                assert(state@.skip(i as int)[0] == state@[i as int]);
                assert(state@.skip(i as int).drop_first() =~= state@.skip(i as int + 1));
            }
            acc = acc * 64 + d;
            proof {
                assert(acc == state_code(state@.skip(i as int)));
                lemma_state_code_bound(state@.skip(i as int));
                assert(state@.skip(i as int).len() == state@.len() - i);
                lemma_pow64_mono(state@.len() - i, 8);
            }
        }
        proof {
            assert(state@.skip(0) =~= state@);
            lemma_pow64_mono(state@.len() as int, 8);
        }
        acc
    }

    /// Decides whether a state code has been recorded before.
    fn code_seen(seen: &Vec<u64>, code: u64) -> (r: bool)
        ensures
            r <==> exists|j: int| 0 <= j < seen@.len() && #[trigger] seen@[j] == code,
    {
        let mut j: usize = 0;
        while j < seen.len()
            invariant
                j <= seen@.len(),
                forall|jj: int| 0 <= jj < j ==> #[trigger] seen@[jj] != code,
            decreases seen@.len() - j,
        {
            if seen[j] == code {
                return true;
            }
            j += 1;
        }
        false
    }

    /// Explores the graph of states reachable from `initial_state`,
    /// expanding at most `budget` states.
    ///
    /// If a move sequence is returned, replaying it from the initial
    /// state is legal throughout and ends in a winning state. If the
    /// initial state already satisfies the win detector and at least one
    /// expansion is allowed, the returned sequence is empty. If the
    /// frontier is exhausted, the visited set is closed under legal moves
    /// and free of winning states, so no legal move sequence whatsoever
    /// reaches a win: the puzzle has no solution. And since at most
    /// `64^8` distinct states exist to expand, a budget above [`CODE_SPACE`]
    /// never runs out.
    #[verifier::rlimit(100)]
    #[verifier::spinoff_prover]
    pub fn solve_with_budget(&self, initial_state: State, budget: u64) -> (r: SearchOutcome)
        requires
            wf_state(self.cars@, initial_state@),
        ensures
            r matches SearchOutcome::Solved(h) ==> replay_ok(self.cars@, initial_state@, h@)
                && spec_winner(replay_result(self.cars@, initial_state@, h@)),
            spec_winner(initial_state@) && budget >= 1 ==> (r matches SearchOutcome::Solved(h)
                && h@.len() == 0),
            r is Exhausted ==> forall|steps: Seq<Step>|
                replay_ok(self.cars@, initial_state@, steps) ==> !spec_winner(
                    #[trigger] replay_result(self.cars@, initial_state@, steps),
                ),
            budget > CODE_SPACE ==> !(r is OutOfBudget),
    {
        let ghost cars = self.cars@;
        let ghost init = initial_state@;
        proof {
            lemma_wf_bounded(cars, init);
        }

        let mut seen: Vec<u64> = Vec::new();
        seen.push(Self::encode(&initial_state));
        let ghost mut vset: Set<Seq<CarPosition>> = Set::empty().insert(init);

        let mut frontier: Vec<(State, Vec<Step>)> = Vec::new();
        let empty_history: Vec<Step> = Vec::new();
        proof {
            assert(replay_ok(cars, init, empty_history@));
            assert(replay_result(cars, init, empty_history@) == init);
        }
        frontier.push((initial_state, empty_history));
        proof {
            assert(seen@[0] == state_code(init));
            assert((#[trigger] frontier@[0]).0@ == init);
            assert forall|v: Seq<CarPosition>| #[trigger] vset.contains(v) implies exists|j: int|
                0 <= j < seen@.len() && seen@[j] == state_code(v) by {
                assert(v == init);
                assert(seen@[0] == state_code(v));
            }
            assert forall|j: int| 0 <= j < seen@.len() implies exists|v: Seq<CarPosition>|
                vset.contains(v) && state_code(v) == #[trigger] seen@[j] by {
                assert(vset.contains(init) && state_code(init) == seen@[j]);
            }
            assert forall|v: Seq<CarPosition>|
                #[trigger] vset.contains(v) && !in_frontier(frontier@, v) implies expanded_ok(
                cars,
                vset,
                v,
            ) by {
                assert(v == init);
                assert((#[trigger] frontier@[0]).0@ == v);
            }
        }

        let mut fuel: u64 = budget;
        loop
            invariant
                cars == self.cars@,
                init == initial_state@,
                wf_state(cars, init),
                forall|e: int|
                    0 <= e < frontier@.len() ==> frontier_entry_ok(
                        cars,
                        init,
                        #[trigger] frontier@[e],
                    ),
                spec_winner(init) ==> frontier@.len() == 1 && frontier@[0].0@ == init
                    && frontier@[0].1@.len() == 0 && fuel == budget,
                vset.contains(init),
                forall|e: int|
                    0 <= e < frontier@.len() ==> vset.contains((#[trigger] frontier@[e]).0@),
                forall|v: Seq<CarPosition>| #[trigger] vset.contains(v) ==> wf_state(cars, v),
                forall|v: Seq<CarPosition>| #[trigger] vset.contains(v) ==> exists|j: int|
                    0 <= j < seen@.len() && seen@[j] == state_code(v),
                forall|j: int|
                    0 <= j < seen@.len() ==> exists|v: Seq<CarPosition>|
                        vset.contains(v) && state_code(v) == #[trigger] seen@[j],
                seen@.no_duplicates(),
                forall|j: int| 0 <= j < seen@.len() ==> #[trigger] seen@[j] < 281474976710656,
                fuel <= budget,
                budget - fuel == seen@.len() - frontier@.len(),
                forall|v: Seq<CarPosition>|
                    #[trigger] vset.contains(v) && !in_frontier(frontier@, v) ==> expanded_ok(
                        cars,
                        vset,
                        v,
                    ),
            decreases fuel,
        {
            if frontier.len() == 0 {
                proof {
                    assert(closed_under_steps(cars, vset)) by {
                        assert forall|v: Seq<CarPosition>, step: Step|
                            vset.contains(v) && step_ok(cars, v, step) implies
                            #[trigger] vset.contains(apply_step(v, step)) by {
                            assert(!in_frontier(frontier@, v));
                            assert(expanded_ok(cars, vset, v));
                        }
                    }
                    assert forall|steps: Seq<Step>|
                        replay_ok(cars, init, steps) implies !spec_winner(
                        #[trigger] replay_result(cars, init, steps),
                    ) by {
                        lemma_closed_reaches(cars, vset, init, steps);
                        assert(!in_frontier(frontier@, replay_result(cars, init, steps)));
                        assert(expanded_ok(cars, vset, replay_result(cars, init, steps)));
                    }
                }
                return SearchOutcome::Exhausted;
            }
            if fuel == 0 {
                proof {
                    // At most 64^8 distinct codes were ever recorded, so a
                    // budget above the code space cannot have been burned.
                    lemma_distinct_codes_bounded(seen@);
                }
                return SearchOutcome::OutOfBudget;
            }
            fuel = fuel - 1;

            let ghost fbefore = frontier@;
            let ghost popped = frontier@[frontier@.len() - 1];
            let (state, history) = frontier.pop().unwrap();
            proof {
                assert(frontier_entry_ok(cars, init, popped));
            }

            if Car::winner(&state) {
                return SearchOutcome::Solved(history);
            }
            proof {
                // If the initial state were already winning, the popped
                // entry would have been the initial one, and the win
                // detector would have fired above.
                assert(!spec_winner(init));
            }
            let ghost fpre = frontier@;
            let ghost vpre = vset;
            proof {
                assert(fbefore =~= fpre.push(popped));
                assert(vset.contains(state@)) by {
                    assert((#[trigger] fbefore[fbefore.len() - 1]).0@ == state@);
                }
                assert forall|v: Seq<CarPosition>|
                    #[trigger] vpre.contains(v) && !in_frontier(fpre, v) && v != state@ implies
                    expanded_ok(cars, vpre, v) by {
                    assert(!in_frontier(fbefore, v)) by {
                        if in_frontier(fbefore, v) {
                            let k = choose|k: int|
                                0 <= k < fbefore.len() && (#[trigger] fbefore[k]).0@ == v;
                            if k < fpre.len() {
                                assert((#[trigger] fpre[k]).0@ == v);
                            } else {
                                assert(fbefore[k] == popped);
                            }
                        }
                    }
                }
            }

            let moves = self.get_moves(&state);
            let mut m: usize = 0;
            while m < moves.len()
                invariant
                    cars == self.cars@,
                    init == initial_state@,
                    wf_state(cars, init),
                    !spec_winner(init),
                    !spec_winner(state@),
                    wf_state(cars, state@),
                    vset.contains(state@),
                    replay_ok(cars, init, history@),
                    replay_result(cars, init, history@) == state@,
                    m <= moves@.len(),
                    forall|i: int|
                        0 <= i < moves@.len() ==> legal_successor(cars, state@, #[trigger] moves@[i]),
                    forall|e: int|
                        0 <= e < frontier@.len() ==> frontier_entry_ok(
                            cars,
                            init,
                            #[trigger] frontier@[e],
                        ),
                    vset.contains(init),
                    forall|e: int|
                        0 <= e < frontier@.len() ==> vset.contains((#[trigger] frontier@[e]).0@),
                    forall|v: Seq<CarPosition>| #[trigger] vset.contains(v) ==> wf_state(cars, v),
                    forall|v: Seq<CarPosition>| #[trigger] vset.contains(v) ==> exists|j: int|
                        0 <= j < seen@.len() && seen@[j] == state_code(v),
                    forall|j: int|
                        0 <= j < seen@.len() ==> exists|v: Seq<CarPosition>|
                            vset.contains(v) && state_code(v) == #[trigger] seen@[j],
                    seen@.no_duplicates(),
                    forall|j: int| 0 <= j < seen@.len() ==> #[trigger] seen@[j] < 281474976710656,
                    fuel < budget,
                    budget - fuel == seen@.len() - frontier@.len(),
                    forall|v: Seq<CarPosition>| #[trigger] vpre.contains(v) ==> vset.contains(v),
                    forall|v: Seq<CarPosition>|
                        #[trigger] vset.contains(v) && !vpre.contains(v) ==> in_frontier(
                            frontier@,
                            v,
                        ),
                    forall|v: Seq<CarPosition>|
                        #[trigger] vpre.contains(v) && !in_frontier(fpre, v) && v != state@
                            ==> expanded_ok(cars, vpre, v),
                    forall|k: int| 0 <= k < fpre.len() ==> #[trigger] frontier@[k] == fpre[k],
                    fpre.len() <= frontier@.len(),
                    forall|mi: int| 0 <= mi < m ==> vset.contains((#[trigger] moves@[mi]).0@),
                decreases moves@.len() - m,
            {
                proof {
                    assert(legal_successor(cars, state@, moves@[m as int]));
                    lemma_wf_bounded(cars, moves@[m as int].0@);
                }
                let code = Self::encode(&moves[m].0);
                let already_seen = Self::code_seen(&seen, code);
                proof {
                    if already_seen {
                        let j = choose|j: int| 0 <= j < seen@.len() && #[trigger] seen@[j] == code;
                        let v = choose|v: Seq<CarPosition>|
                            vset.contains(v) && state_code(v) == seen@[j];
                        lemma_wf_bounded(cars, v);
                        assert forall|i: int|
                            0 <= i < v.len() implies (#[trigger] v[i]).id == (
                        #[trigger] moves@[m as int].0@[i]).id by {
                            assert(wf_entry(cars, v, i));
                            assert(wf_entry(cars, moves@[m as int].0@, i));
                        }
                        lemma_state_code_injective(v, moves@[m as int].0@);
                        assert(v == moves@[m as int].0@);
                        assert(vset.contains(moves@[m as int].0@));
                    }
                }
                if !already_seen {
                    let ghost seen0 = seen@;
                    let ghost vset0 = vset;
                    seen.push(code);
                    proof {
                        vset = vset.insert(moves@[m as int].0@);
                        assert forall|v: Seq<CarPosition>|
                            #[trigger] vset.contains(v) implies exists|j: int|
                            0 <= j < seen@.len() && seen@[j] == state_code(v) by {
                            if vset0.contains(v) {
                                let j = choose|j: int|
                                    0 <= j < seen0.len() && seen0[j] == state_code(v);
                                assert(seen@[j] == state_code(v));
                            } else {
                                assert(v == moves@[m as int].0@);
                                assert(seen@[seen@.len() - 1] == state_code(v));
                            }
                        }
                        assert forall|j: int|
                            0 <= j < seen@.len() implies exists|v: Seq<CarPosition>|
                            vset.contains(v) && state_code(v) == #[trigger] seen@[j] by {
                            if j < seen0.len() {
                                assert(seen@[j] == seen0[j]);
                                let v = choose|v: Seq<CarPosition>|
                                    vset0.contains(v) && state_code(v) == seen0[j];
                                assert(vset.contains(v) && state_code(v) == seen@[j]);
                            } else {
                                assert(vset.contains(moves@[m as int].0@) && state_code(
                                    moves@[m as int].0@,
                                ) == seen@[j]);
                            }
                        }
                        assert(seen@.no_duplicates()) by {
                            assert forall|i: int, j: int|
                                0 <= i < seen@.len() && 0 <= j < seen@.len() && i != j implies
                                seen@[i] != seen@[j] by {
                                if i < seen0.len() && j < seen0.len() {
                                    assert(seen0[i] != seen0[j]);
                                }
                            }
                        }
                    }

                    let successor = Self::clone_state(&moves[m].0);
                    let step = moves[m].1;
                    let mut new_history = Self::clone_steps(&history);
                    new_history.push(step);
                    proof {
                        lemma_replay_push(cars, init, history@, step);
                    }
                    let ghost frontier0 = frontier@;
                    frontier.push((successor, new_history));
                    proof {
                        assert forall|e: int|
                            0 <= e < frontier@.len() implies frontier_entry_ok(
                            cars,
                            init,
                            #[trigger] frontier@[e],
                        ) && vset.contains(frontier@[e].0@) by {
                            if e < frontier0.len() {
                                assert(frontier@[e] == frontier0[e]);
                                assert(frontier_entry_ok(cars, init, frontier0[e]));
                            } else {
                                assert(frontier@[e].0@ == moves@[m as int].0@);
                            }
                        }
                        assert forall|k: int|
                            0 <= k < fpre.len() implies #[trigger] frontier@[k] == fpre[k] by {
                            assert(frontier@[k] == frontier0[k]);
                        }
                        assert forall|v: Seq<CarPosition>|
                            #[trigger] vset.contains(v) && !vpre.contains(v) implies in_frontier(
                            frontier@,
                            v,
                        ) by {
                            if vset0.contains(v) {
                                assert(in_frontier(frontier0, v));
                                let k = choose|k: int|
                                    0 <= k < frontier0.len() && (#[trigger] frontier0[k]).0@ == v;
                                assert((#[trigger] frontier@[k]).0@ == v);
                            } else {
                                assert((#[trigger] frontier@[frontier@.len() - 1]).0@ == v);
                            }
                        }
                    }
                }
                m += 1;
            }
            proof {
                // The popped state is now fully expanded: the generator
                // returned every legal move, and each stepped state has
                // been recorded.
                assert(expanded_ok(cars, vset, state@)) by {
                    assert forall|step: Step| #[trigger] step_ok(cars, state@, step) implies
                        vset.contains(apply_step(state@, step)) by {
                        assert(crate::moves::has_move(moves@, step));
                        let i = choose|i: int|
                            0 <= i < moves@.len() && (#[trigger] moves@[i]).1 == step;
                        assert(legal_successor(cars, state@, moves@[i]));
                        assert(moves@[i].0@ == apply_step(state@, step));
                        assert(vset.contains(moves@[i].0@));
                    }
                }
                assert forall|v: Seq<CarPosition>|
                    #[trigger] vset.contains(v) && !in_frontier(frontier@, v) implies expanded_ok(
                    cars,
                    vset,
                    v,
                ) by {
                    if v == state@ {
                    } else if !vpre.contains(v) {
                        assert(in_frontier(frontier@, v));
                    } else {
                        assert(!in_frontier(fpre, v)) by {
                            if in_frontier(fpre, v) {
                                let k = choose|k: int|
                                    0 <= k < fpre.len() && (#[trigger] fpre[k]).0@ == v;
                                assert((#[trigger] frontier@[k]).0@ == v);
                            }
                        }
                        assert(expanded_ok(cars, vpre, v));
                        assert forall|step: Step| #[trigger] step_ok(cars, v, step) implies
                            vset.contains(apply_step(v, step)) by {
                            assert(vpre.contains(apply_step(v, step)));
                        }
                    }
                }
            }
        }
    }

    /// Solves the puzzle: returns a move sequence that drives the target
    /// vehicle to the exit, or `None` exactly when the puzzle has no
    /// solution.
    ///
    /// If a sequence is returned, replaying it from the initial state is
    /// legal throughout and its final state satisfies the win detector;
    /// if the initial state is already winning, the empty sequence is
    /// returned at once. If `None` is returned, no legal move sequence
    /// from the initial state reaches a winning state: the search is
    /// exhaustive over the finite reachable state space, and its budget,
    /// above [`CODE_SPACE`], provably never runs out first.
    pub fn solve(&self, initial_state: State) -> (r: Option<Vec<Step>>)
        requires
            wf_state(self.cars@, initial_state@),
        ensures
            r matches Some(h) ==> replay_ok(self.cars@, initial_state@, h@) && spec_winner(
                replay_result(self.cars@, initial_state@, h@),
            ),
            spec_winner(initial_state@) ==> (r matches Some(h) && h@.len() == 0),
            r is None ==> !(exists|steps: Seq<Step>|
                #[trigger] replay_ok(self.cars@, initial_state@, steps) && spec_winner(
                    replay_result(self.cars@, initial_state@, steps),
                )),
    {
        match self.solve_with_budget(initial_state, DEFAULT_BUDGET) {
            SearchOutcome::Solved(history) => Some(history),
            SearchOutcome::Exhausted => {
                proof {
                    if exists|steps: Seq<Step>|
                        #[trigger] replay_ok(self.cars@, initial_state@, steps) && spec_winner(
                            replay_result(self.cars@, initial_state@, steps),
                        ) {
                        let steps = choose|steps: Seq<Step>|
                            #[trigger] replay_ok(self.cars@, initial_state@, steps) && spec_winner(
                                replay_result(self.cars@, initial_state@, steps),
                            );
                        assert(!spec_winner(replay_result(self.cars@, initial_state@, steps)));
                    }
                }
                None
            },
            SearchOutcome::OutOfBudget => {
                proof {
                    // The budget exceeds the code space, so the search
                    // cannot have run out of it.
                    assert(false);
                }
                None
            },
        }
    }
}

} // verus!
