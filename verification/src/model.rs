//! Grid world model: states, actions, the ring-shaped legal state space,
//! goal membership, and the clamped transition function.
use vstd::prelude::*;

use crate::COORD_MAX;
use crate::DELTA_MAX;
use crate::GridError;
use crate::WIDTH_MAX;

verus! {

/// A grid cell, identified by its integer coordinates.
#[derive(Clone, Copy, Debug, PartialEq, Eq, Hash, Structural)]
pub struct State {
    pub i: i64,
    pub j: i64,
}

/// A displacement applied to a state, either chosen by the robot or drawn
/// by nature.
#[derive(Clone, Copy, Debug, PartialEq, Eq, Hash, Structural)]
pub struct Action {
    pub di: i64,
    pub dj: i64,
}

/// The displacement that leaves a state where it is.
pub open spec fn stay_action() -> Action {
    Action { di: 0, dj: 0 }
}

/// An action whose components are small enough for transition arithmetic.
pub open spec fn bounded_action(a: Action) -> bool {
    -DELTA_MAX <= a.di <= DELTA_MAX && -DELTA_MAX <= a.dj <= DELTA_MAX
}

/// A state whose coordinates are small enough for transition arithmetic.
pub open spec fn bounded_state(s: State) -> bool {
    -COORD_MAX <= s.i <= COORD_MAX && -COORD_MAX <= s.j <= COORD_MAX
}

/// Membership of the cell `(i, j)` in the legal "ring" region of a grid of
/// width `w`: inside the grid, but not strictly inside the central third on
/// both axes.
pub open spec fn in_ring(i: int, j: int, w: int) -> bool {
    &&& 1 <= i <= w
    &&& 1 <= j <= w
    &&& (i <= w / 3 || i > 2 * w / 3 || j <= w / 3 || j > 2 * w / 3)
}

/// Ring membership of a state's coordinates.
pub open spec fn in_ring_state(s: State, w: int) -> bool {
    in_ring(s.i as int, s.j as int, w)
}

/// A state is a goal state when both coordinates lie beyond two thirds of
/// the grid width.
pub open spec fn spec_is_goal(s: State, w: int) -> bool {
    s.i > 2 * w / 3 && s.j > 2 * w / 3
}

/// The ordered legal state space of a grid of width `w`.
pub struct StateSpace {
    pub w: i64,
    pub states: Vec<State>,
}

impl StateSpace {
    /// The enumeration holds exactly the ring cells, each once.
    pub open spec fn wf(self) -> bool {
        &&& 3 <= self.w <= WIDTH_MAX
        &&& forall|s: State|
            #![trigger self.states@.contains(s)]
            #![trigger in_ring_state(s, self.w as int)]
            self.states@.contains(s) <==> in_ring_state(s, self.w as int)
        &&& forall|k1: int, k2: int|
            0 <= k1 < k2 < self.states@.len() ==> self.states@[k1] != self.states@[k2]
    }
}

/// Row-major precedence of grid cells: `a` comes before `b` when it lies on
/// an earlier row, or on the same row further left.
pub open spec fn row_major_less(a: State, b: State) -> bool {
    a.j < b.j || (a.j == b.j && a.i < b.i)
}

/// The position of `s` in the enumeration `sts`; meaningful only when `sts`
/// contains `s`.
pub open spec fn sidx(sts: Seq<State>, s: State) -> int {
    choose|k: int| 0 <= k < sts.len() && sts[k] == s
}

/// In a well-formed state space an index determines its state and back.
pub proof fn lemma_sidx_of_index(space: StateSpace, k: int)
    requires
        space.wf(),
        0 <= k < space.states@.len(),
    ensures
        space.states@.contains(space.states@[k]),
        sidx(space.states@, space.states@[k]) == k,
{
    let s = space.states@[k];
    assert(space.states@.contains(s));
    let k2 = sidx(space.states@, s);
    assert(0 <= k2 < space.states@.len() && space.states@[k2] == s);
    if k2 < k {
        assert(space.states@[k2] != space.states@[k]);
    } else if k < k2 {
        assert(space.states@[k] != space.states@[k2]);
    }
}

/// A contained state's index is in range and points back at it.
pub proof fn lemma_sidx_valid(sts: Seq<State>, s: State)
    requires
        sts.contains(s),
    ensures
        0 <= sidx(sts, s) < sts.len(),
        sts[sidx(sts, s)] == s,
{
    let k = choose|k: int| 0 <= k < sts.len() && sts[k] == s;
    assert(0 <= k < sts.len() && sts[k] == s);
}

/// True iff both coordinates of the state exceed two thirds of the grid width.
pub fn is_goal(x: &State, w: i64) -> (r: bool)
    requires
        3 <= w <= WIDTH_MAX,
    ensures
        r == spec_is_goal(*x, w as int),
{
    x.i > 2 * w / 3 && x.j > 2 * w / 3
}

/// Enumerates the legal state space of a grid of width `w` in row-major
/// order, or reports invalid geometry for a width too small to form a ring.
pub fn build_states(w: i64) -> (r: Result<StateSpace, GridError>)
    ensures
        match r {
            Ok(space) => {
                &&& space.wf()
                &&& space.w == w
                &&& forall|k1: int, k2: int|
                    0 <= k1 < k2 < space.states@.len() ==> row_major_less(
                        space.states@[k1],
                        space.states@[k2],
                    )
            },
            Err(e) => e == GridError::InvalidGeometry && !(3 <= w <= WIDTH_MAX),
        },
{
    if w < 3 || w > WIDTH_MAX {
        return Err(GridError::InvalidGeometry);
    }
    let mut states: Vec<State> = Vec::new();
    let mut y: i64 = 1;
    while y <= w
        invariant
            3 <= w <= WIDTH_MAX,
            1 <= y <= w + 1,
            forall|k: int|
                0 <= k < states@.len() ==> in_ring_state(#[trigger] states@[k], w as int),
            forall|k: int| 0 <= k < states@.len() ==> (#[trigger] states@[k]).j < y,
            forall|s: State|
                in_ring_state(s, w as int) && s.j < y ==> #[trigger] states@.contains(s),
            forall|k1: int, k2: int|
                0 <= k1 < k2 < states@.len() ==> states@[k1] != states@[k2],
            forall|k1: int, k2: int|
                0 <= k1 < k2 < states@.len() ==> row_major_less(states@[k1], states@[k2]),
        decreases w + 1 - y,
    {
        let mut x: i64 = 1;
        while x <= w
            invariant
                3 <= w <= WIDTH_MAX,
                1 <= y <= w,
                1 <= x <= w + 1,
                forall|k: int|
                    0 <= k < states@.len() ==> in_ring_state(#[trigger] states@[k], w as int),
                forall|k: int|
                    0 <= k < states@.len() ==> (#[trigger] states@[k]).j < y || (
                    states@[k].j == y && states@[k].i < x),
                forall|s: State|
                    in_ring_state(s, w as int) && (s.j < y || (s.j == y && s.i < x))
                        ==> #[trigger] states@.contains(s),
                forall|k1: int, k2: int|
                    0 <= k1 < k2 < states@.len() ==> states@[k1] != states@[k2],
                forall|k1: int, k2: int|
                    0 <= k1 < k2 < states@.len() ==> row_major_less(states@[k1], states@[k2]),
            decreases w + 1 - x,
        {
            if x <= w / 3 || x > 2 * w / 3 || y <= w / 3 || y > 2 * w / 3 {
                let s = State { i: x, j: y };
                let ghost prev = states@;
                states.push(s);
                proof {
                    assert(states@ == prev.push(s));
                    assert(states@[prev.len() as int] == s);
                    assert forall|t: State|
                        in_ring_state(t, w as int) && (t.j < y || (t.j == y && t.i < x + 1))
                            implies #[trigger] states@.contains(t) by {
                        if t.j < y || (t.j == y && t.i < x) {
                            assert(prev.contains(t));
                            let m = choose|m: int| 0 <= m < prev.len() && prev[m] == t;
                            assert(states@[m] == t);
                        } else {
                            assert(t == s);
                            assert(states@[prev.len() as int] == t);
                        }
                    }
                }
            } else {
                proof {
                    assert forall|t: State|
                        in_ring_state(t, w as int) && (t.j < y || (t.j == y && t.i < x + 1))
                            implies #[trigger] states@.contains(t) by {
                        if t.j == y && t.i == x {
                            assert(!in_ring_state(t, w as int));
                        }
                    }
                }
            }
            x = x + 1;
        }
        y = y + 1;
    }
    let space = StateSpace { w, states };
    proof {
        assert forall|s: State| space.states@.contains(s)
            implies in_ring_state(s, space.w as int) by {
            let k = choose|k: int| 0 <= k < space.states@.len() && space.states@[k] == s;
            assert(in_ring_state(space.states@[k], w as int));
        }
    }
    Ok(space)
}

/// The default robot action catalog: stay in place, and the four unit
/// moves along the axes.
pub fn default_robot_actions() -> (r: Vec<Action>)
    ensures
        r@.len() == 5,
        r@[0] == (Action { di: 0, dj: 0 }),
        r@[1] == (Action { di: 1, dj: 0 }),
        r@[2] == (Action { di: 0, dj: 1 }),
        r@[3] == (Action { di: -1i64, dj: 0 }),
        r@[4] == (Action { di: 0, dj: -1i64 }),
        forall|k: int| 0 <= k < r@.len() ==> bounded_action(#[trigger] r@[k]),
        r@.contains(stay_action()),
{
    let mut r: Vec<Action> = Vec::new();
    r.push(Action { di: 0, dj: 0 });
    r.push(Action { di: 1, dj: 0 });
    r.push(Action { di: 0, dj: 1 });
    r.push(Action { di: -1, dj: 0 });
    r.push(Action { di: 0, dj: -1 });
    proof {
        assert(r@[0] == stay_action());
    }
    r
}

/// The position of the cell `(i, j)` in the enumeration, by linear scan over
/// structural equality.
pub fn position_of(space: &StateSpace, i: i64, j: i64) -> (r: Option<usize>)
    ensures
        match r {
            Some(k) => k < space.states@.len() && space.states@[k as int] == (State { i, j }),
            None => !space.states@.contains(State { i, j }),
        },
{
    let target = State { i, j };
    let n = space.states.len();
    let mut k: usize = 0;
    while k < n
        invariant
            n == space.states@.len(),
            k <= n,
            forall|m: int| 0 <= m < k ==> space.states@[m] != (State { i, j }),
        decreases n - k,
    {
        let c = space.states[k];
        if c.i == i && c.j == j {
            return Some(k);
        }
        k = k + 1;
    }
    proof {
        if space.states@.contains(target) {
            let m = choose|m: int|
                0 <= m < space.states@.len() && space.states@[m] == target;
            assert(space.states@[m] != target);
        }
    }
    None
}

/// The clamped transition: the vector sum of state and displacements when
/// that sum is a legal state, the unchanged source state otherwise.
pub open spec fn spec_do_action(st: State, ra: Action, na: Action, w: int) -> State {
    let ci = st.i + ra.di + na.di;
    let cj = st.j + ra.dj + na.dj;
    if in_ring(ci, cj, w) {
        State { i: ci as i64, j: cj as i64 }
    } else {
        st
    }
}

/// A transition from a legal state lands in a legal state.
pub proof fn lemma_do_action_in_ring(st: State, ra: Action, na: Action, w: int)
    requires
        3 <= w <= WIDTH_MAX,
        in_ring_state(st, w),
    ensures
        in_ring_state(spec_do_action(st, ra, na, w), w),
{
    let ci = st.i + ra.di + na.di;
    let cj = st.j + ra.dj + na.dj;
    if in_ring(ci, cj, w) {
        assert(1 <= ci <= w && 1 <= cj <= w);
        assert((ci as i64) as int == ci);
        assert((cj as i64) as int == cj);
    }
}

/// Applies a robot action and a nature action to a state, clamping to the
/// source state whenever the naive destination is not in the enumerated
/// legal state space.
pub fn do_action(
    st: &State,
    robot_action: &Action,
    nature_action: &Action,
    available_states: &StateSpace,
) -> (r: State)
    requires
        available_states.wf(),
        bounded_state(*st),
        bounded_action(*robot_action),
        bounded_action(*nature_action),
    ensures
        r == spec_do_action(*st, *robot_action, *nature_action, available_states.w as int),
        !in_ring(
            st.i + robot_action.di + nature_action.di,
            st.j + robot_action.dj + nature_action.dj,
            available_states.w as int,
        ) ==> r == *st,
        in_ring_state(*st, available_states.w as int) ==> in_ring_state(
            r,
            available_states.w as int,
        ),
        bounded_state(r),
{
    let ci = st.i + robot_action.di + nature_action.di;
    let cj = st.j + robot_action.dj + nature_action.dj;
    match position_of(available_states, ci, cj) {
        Some(_k) => {
            proof {
                assert(available_states.states@.contains(State { i: ci, j: cj }));
            }
            State { i: ci, j: cj }
        },
        None => {
            proof {
                if in_ring(ci as int, cj as int, available_states.w as int) {
                    assert(available_states.states@.contains(State { i: ci, j: cj }));
                }
            }
            State { i: st.i, j: st.j }
        },
    }
}

} // verus!
