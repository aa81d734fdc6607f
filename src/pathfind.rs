use vstd::prelude::*;
use vstd::set_lib::{lemma_int_range, lemma_len_subset, set_int_range};

verus! {

/// Cost of an orthogonal step, in thousandths of a base unit.
pub const ORTHOGONAL_STEP: u128 = 1000;

/// Cost of a diagonal step (a fixed-point approximation of the square root of two).
pub const DIAGONAL_STEP: u128 = 1414;

/// Overlay intensities are given in thousandths: a cell at intensity `k` costs
/// `(1000 + k) / 1000` times a plain step.
pub const INTENSITY_UNIT: u128 = 1000;

/// Largest cost of one step: a diagonal into a cell of the largest overlay value.
pub const MAX_STEP_COST: u128 = 1414 * (1000 + 0xffff_ffff);

/// A pathfinding node: a row and a column of the grid.
#[derive(Clone, Copy, Debug, PartialEq, Eq, Structural)]
pub struct Cell {
    pub row: u32,
    pub col: u32,
}

/// Walkability of each cell, an optional danger overlay, and the move set.
#[derive(Debug)]
pub struct PathGrid {
    pub rows: u32,
    pub cols: u32,
    /// Row-major: cell `(r, c)` is at `r * cols + c`.
    pub walkable: Vec<bool>,
    /// Per-cell intensity in thousandths, same layout as `walkable`.
    pub overlay: Option<Vec<u32>>,
    /// Whether the eight-connected move set is used rather than the four-connected one.
    pub diagonal: bool,
}

/// A route and its cost in millionths of a base unit; no cells and no cost when no
/// route exists.
#[derive(Debug)]
pub struct PathResult {
    pub cells: Vec<Cell>,
    pub cost: Option<u128>,
}

/// Why a search request was refused or gave up.
#[derive(Clone, Copy, Debug, PartialEq, Eq, Structural)]
pub enum PathError {
    OutOfBounds,
    Unwalkable,
    SearchAborted,
}

impl PathGrid {
    pub open spec fn wf(&self) -> bool {
        &&& self.walkable@.len() == self.rows as int * self.cols as int
        &&& match self.overlay {
            Some(v) => v@.len() == self.walkable@.len(),
            None => true,
        }
    }
}

pub open spec fn in_grid(g: PathGrid, c: Cell) -> bool {
    c.row < g.rows && c.col < g.cols
}

pub open spec fn idx(g: PathGrid, c: Cell) -> int {
    c.row as int * g.cols as int + c.col as int
}

pub open spec fn at<T>(s: Seq<T>, g: PathGrid, c: Cell) -> T {
    s[idx(g, c)]
}

/// In the grid and walkable.
pub open spec fn open_cell(g: PathGrid, c: Cell) -> bool {
    in_grid(g, c) && g.walkable@[idx(g, c)]
}

pub open spec fn abs_diff(a: int, b: int) -> int {
    if a >= b {
        a - b
    } else {
        b - a
    }
}

/// One move of the grid's move set leads from `a` to `b`.
pub open spec fn adjacent(g: PathGrid, a: Cell, b: Cell) -> bool {
    let dr = abs_diff(a.row as int, b.row as int);
    let dc = abs_diff(a.col as int, b.col as int);
    dr <= 1 && dc <= 1 && (dr, dc) != (0int, 0int) && (g.diagonal || dr == 0 || dc == 0)
}

pub open spec fn overlay_at(g: PathGrid, c: Cell) -> int {
    match g.overlay {
        Some(v) => v@[idx(g, c)] as int,
        None => 0,
    }
}

pub open spec fn base_step(a: Cell, b: Cell) -> int {
    if a.row != b.row && a.col != b.col {
        DIAGONAL_STEP as int
    } else {
        ORTHOGONAL_STEP as int
    }
}

/// Cost of moving from `a` into `b`: the plain step scaled by `b`'s danger.
pub open spec fn step_cost(g: PathGrid, a: Cell, b: Cell) -> int {
    base_step(a, b) * (INTENSITY_UNIT as int + overlay_at(g, b))
}

/// A walk through open cells, each move one of the move set.
pub open spec fn is_path(g: PathGrid, p: Seq<Cell>) -> bool {
    &&& p.len() >= 1
    &&& forall|i: int| 0 <= i < p.len() ==> open_cell(g, #[trigger] p[i])
    &&& forall|i: int| 0 <= i < p.len() - 1 ==> adjacent(g, #[trigger] p[i], p[i + 1])
}

pub open spec fn path_cost(g: PathGrid, p: Seq<Cell>) -> int
    decreases p.len(),
{
    if p.len() <= 1 {
        0
    } else {
        path_cost(g, p.drop_last()) + step_cost(g, p[p.len() - 2], p[p.len() - 1])
    }
}

/// A path from `start` to `goal`.
pub open spec fn is_route(g: PathGrid, p: Seq<Cell>, start: Cell, goal: Cell) -> bool {
    is_path(g, p) && p[0] == start && p.last() == goal
}

/// Octile distance (Manhattan when only orthogonal moves exist), in step units.
pub open spec fn octile(diagonal: bool, dr: int, dc: int) -> int {
    if diagonal {
        let lo = if dr <= dc {
            dr
        } else {
            dc
        };
        let hi = if dr <= dc {
            dc
        } else {
            dr
        };
        DIAGONAL_STEP as int * lo + ORTHOGONAL_STEP as int * (hi - lo)
    } else {
        ORTHOGONAL_STEP as int * (dr + dc)
    }
}

/// Estimate of the remaining cost from `c` to `goal`, at the cheapest per-cell rate.
pub open spec fn heuristic(g: PathGrid, c: Cell, goal: Cell) -> int {
    INTENSITY_UNIT as int * octile(
        g.diagonal,
        abs_diff(c.row as int, goal.row as int),
        abs_diff(c.col as int, goal.col as int),
    )
}

proof fn lemma_index(g: PathGrid, c: Cell)
    requires
        in_grid(g, c),
    ensures
        0 <= idx(g, c) < g.rows as int * g.cols as int,
{
    assert(0 <= c.row as int * g.cols as int) by (nonlinear_arith)
        requires
            c.row >= 0,
            g.cols >= 0,
    ;
    assert(c.row as int * g.cols as int + c.col < g.rows as int * g.cols as int) by (nonlinear_arith)
        requires
            c.row < g.rows,
            c.col < g.cols,
    ;
}

proof fn lemma_index_injective(g: PathGrid, a: Cell, b: Cell)
    requires
        in_grid(g, a),
        in_grid(g, b),
        idx(g, a) == idx(g, b),
    ensures
        a == b,
{
    let cols = g.cols as int;
    if a.row < b.row {
        assert(a.row as int * cols + a.col < b.row as int * cols) by (nonlinear_arith)
            requires
                a.row < b.row,
                a.col < cols,
        ;
    } else if b.row < a.row {
        assert(b.row as int * cols + b.col < a.row as int * cols) by (nonlinear_arith)
            requires
                b.row < a.row,
                b.col < cols,
        ;
    }
}

proof fn lemma_step_cost(g: PathGrid, a: Cell, b: Cell)
    requires
        g.wf(),
        in_grid(g, b),
    ensures
        INTENSITY_UNIT * base_step(a, b) <= step_cost(g, a, b) <= MAX_STEP_COST,
        step_cost(g, a, b) > 0,
{
    lemma_index(g, b);
    let o = overlay_at(g, b);
    assert(0 <= o <= 0xffff_ffff);
    assert(base_step(a, b) * (1000 + o) <= 1414 * (1000 + 0xffff_ffff)) by (nonlinear_arith)
        requires
            0 <= o <= 0xffff_ffff,
            0 < base_step(a, b) <= 1414,
    ;
    assert(1000 * base_step(a, b) <= base_step(a, b) * (1000 + o)) by (nonlinear_arith)
        requires
            0 <= o,
            0 < base_step(a, b),
    ;
}

/// The estimate never exceeds the cost of one move plus the estimate after it.
proof fn lemma_consistent(g: PathGrid, a: Cell, b: Cell, goal: Cell)
    requires
        g.wf(),
        in_grid(g, b),
        adjacent(g, a, b),
    ensures
        heuristic(g, a, goal) <= step_cost(g, a, b) + heuristic(g, b, goal),
{
    lemma_step_cost(g, a, b);
}

proof fn lemma_path_split(g: PathGrid, p: Seq<Cell>, k: int)
    requires
        0 <= k < p.len(),
    ensures
        path_cost(g, p) == path_cost(g, p.take(k + 1)) + path_cost(g, p.skip(k)),
    decreases p.len(),
{
    if k == p.len() - 1 {
        assert(p.take(k + 1) =~= p);
    } else {
        let q = p.drop_last();
        lemma_path_split(g, q, k);
        assert(q.take(k + 1) =~= p.take(k + 1));
        assert(p.skip(k).drop_last() =~= q.skip(k));
    }
}

/// The estimate is a lower bound on the cost of every path to the goal.
proof fn lemma_admissible(g: PathGrid, q: Seq<Cell>, goal: Cell)
    requires
        g.wf(),
        is_path(g, q),
        q.last() == goal,
    ensures
        heuristic(g, q[0], goal) <= path_cost(g, q),
    decreases q.len(),
{
    if q.len() > 1 {
        let t = q.skip(1);
        assert forall|i: int| 0 <= i < t.len() implies open_cell(g, #[trigger] t[i]) by {
            assert(t[i] == q[i + 1]);
        }
        assert forall|i: int| 0 <= i < t.len() - 1 implies adjacent(g, #[trigger] t[i], t[i + 1]) by {
            assert(t[i] == q[i + 1]);
            assert(adjacent(g, q[i + 1], q[i + 2]));
        }
        assert(t.last() == goal);
        lemma_admissible(g, t, goal);
        lemma_path_split(g, q, 1);
        let q2 = q.take(2);
        assert(q2.drop_last() =~= seq![q[0]]);
        assert(path_cost(g, q2.drop_last()) == 0);
        assert(q2[0] == q[0] && q2[1] == q[1]);
        assert(path_cost(g, q2) == step_cost(g, q[0], q[1]));
        assert(t[0] == q[1]);
        assert(adjacent(g, q[0], q[1]));
        lemma_consistent(g, q[0], q[1], goal);
    }
}

/// Every path cost is non-negative.
proof fn lemma_cost_nonneg(g: PathGrid, p: Seq<Cell>)
    requires
        g.wf(),
        is_path(g, p),
    ensures
        path_cost(g, p) >= 0,
        p.len() > 1 ==> path_cost(g, p) > 0,
    decreases p.len(),
{
    if p.len() > 1 {
        let q = p.drop_last();
        assert forall|i: int| 0 <= i < q.len() implies open_cell(g, #[trigger] q[i]) by {
            assert(q[i] == p[i]);
        }
        assert forall|i: int| 0 <= i < q.len() - 1 implies adjacent(g, #[trigger] q[i], q[i + 1]) by {
            assert(q[i] == p[i]);
            assert(adjacent(g, p[i], p[i + 1]));
        }
        lemma_cost_nonneg(g, q);
        assert(open_cell(g, p[p.len() - 1]));
        lemma_step_cost(g, p[p.len() - 2], p[p.len() - 1]);
    }
}

proof fn lemma_skip_path(g: PathGrid, p: Seq<Cell>, j: int)
    requires
        is_path(g, p),
        0 <= j < p.len(),
    ensures
        is_path(g, p.skip(j)),
        p.skip(j)[0] == p[j],
        p.skip(j).last() == p.last(),
{
    let t = p.skip(j);
    assert forall|i: int| 0 <= i < t.len() implies open_cell(g, #[trigger] t[i]) by {
        assert(t[i] == p[i + j]);
    }
    assert forall|i: int| 0 <= i < t.len() - 1 implies adjacent(g, #[trigger] t[i], t[i + 1]) by {
        assert(t[i] == p[i + j]);
        assert(adjacent(g, p[i + j], p[i + j + 1]));
    }
}

/// Every reached cell is open.
#[verifier::opaque]
pub open spec fn reached_open(g: PathGrid, dist: Seq<Option<u128>>) -> bool {
    forall|c: Cell|
        #![trigger idx(g, c)]
        in_grid(g, c) && at(dist, g, c) is Some ==> open_cell(g, c)
}

/// Every expanded cell has been reached.
#[verifier::opaque]
pub open spec fn closed_reached(g: PathGrid, dist: Seq<Option<u128>>, closed: Seq<bool>) -> bool {
    forall|c: Cell|
        #![trigger idx(g, c)]
        in_grid(g, c) && at(closed, g, c) ==> at(dist, g, c) is Some
}

/// Each move out of an expanded cell into an open cell has been relaxed, except the
/// moves out of `u` into cells still in `todo`.
#[verifier::opaque]
pub open spec fn relaxed_except(
    g: PathGrid,
    dist: Seq<Option<u128>>,
    closed: Seq<bool>,
    u: Cell,
    todo: Set<Cell>,
) -> bool {
    forall|a: Cell, b: Cell|
        #![trigger adjacent(g, a, b)]
        in_grid(g, a) && at(closed, g, a) && open_cell(g, b) && adjacent(g, a, b) && !(a == u
            && todo.contains(b)) ==> at(dist, g, b) is Some && at(dist, g, b).unwrap() <= at(
            dist,
            g,
            a,
        ).unwrap() + step_cost(g, a, b)
}

/// Every reached cell other than the start records an expanded predecessor through
/// which its distance is attained exactly.
#[verifier::opaque]
pub open spec fn parents_ok(
    g: PathGrid,
    dist: Seq<Option<u128>>,
    parent: Seq<Cell>,
    closed: Seq<bool>,
    start: Cell,
) -> bool {
    forall|c: Cell|
        #![trigger idx(g, c)]
        in_grid(g, c) && at(dist, g, c) is Some && c != start ==> {
            let p = at(parent, g, c);
            &&& in_grid(g, p)
            &&& at(closed, g, p)
            &&& adjacent(g, p, c)
            &&& at(dist, g, p) is Some
            &&& at(dist, g, c).unwrap() == at(dist, g, p).unwrap() + step_cost(g, p, c)
        }
}

/// Known cost from the start plus the estimate to the goal.
pub open spec fn f_of(g: PathGrid, dist: Seq<Option<u128>>, c: Cell, goal: Cell) -> int {
    at(dist, g, c).unwrap() + heuristic(g, c, goal)
}

/// No expanded cell has a larger estimate than a cell on the frontier.
#[verifier::opaque]
pub open spec fn ordered(g: PathGrid, dist: Seq<Option<u128>>, closed: Seq<bool>, goal: Cell) -> bool {
    forall|a: Cell, b: Cell|
        #![trigger idx(g, a), idx(g, b)]
        in_grid(g, a) && in_grid(g, b) && at(closed, g, a) && !at(closed, g, b) && at(dist, g, b) is Some
            ==> f_of(g, dist, a, goal) <= f_of(g, dist, b, goal)
}

#[verifier::opaque]
/// No expanded cell has a larger estimate than `u`.
#[verifier::opaque]
pub open spec fn capped_by(
    g: PathGrid,
    dist: Seq<Option<u128>>,
    closed: Seq<bool>,
    u: Cell,
    goal: Cell,
) -> bool {
    forall|a: Cell|
        #![trigger idx(g, a)]
        in_grid(g, a) && at(closed, g, a) ==> f_of(g, dist, a, goal) <= f_of(g, dist, u, goal)
}

/// No frontier cell has a smaller estimate than `u`.
#[verifier::opaque]
pub open spec fn frontier_above(
    g: PathGrid,
    dist: Seq<Option<u128>>,
    closed: Seq<bool>,
    u: Cell,
    goal: Cell,
) -> bool {
    forall|b: Cell|
        #![trigger idx(g, b)]
        in_grid(g, b) && !at(closed, g, b) && at(dist, g, b) is Some ==> f_of(g, dist, u, goal)
            <= f_of(g, dist, b, goal)
}

pub open spec fn bounded(g: PathGrid, dist: Seq<Option<u128>>, bound: int) -> bool {
    forall|c: Cell|
        #![trigger idx(g, c)]
        in_grid(g, c) && at(dist, g, c) is Some ==> at(dist, g, c).unwrap() <= bound
}

pub open spec fn search_state(
    g: PathGrid,
    dist: Seq<Option<u128>>,
    parent: Seq<Cell>,
    closed: Seq<bool>,
    start: Cell,
) -> bool {
    &&& g.wf()
    &&& dist.len() == g.walkable@.len()
    &&& parent.len() == g.walkable@.len()
    &&& closed.len() == g.walkable@.len()
    &&& in_grid(g, start)
    &&& at(dist, g, start) == Some(0u128)
    &&& reached_open(g, dist)
    &&& closed_reached(g, dist, closed)
    &&& parents_ok(g, dist, parent, closed, start)
}

/// Along a path from the start whose first `k` cells are expanded, cell `k` has been
/// reached at no more than the cost of the path up to it.
proof fn lemma_reach_prefix(
    g: PathGrid,
    dist: Seq<Option<u128>>,
    parent: Seq<Cell>,
    closed: Seq<bool>,
    start: Cell,
    p: Seq<Cell>,
    k: int,
)
    requires
        search_state(g, dist, parent, closed, start),
        relaxed_except(g, dist, closed, start, Set::empty()),
        is_path(g, p),
        p[0] == start,
        0 <= k < p.len(),
        forall|j: int| 0 <= j < k ==> at(closed, g, #[trigger] p[j]),
    ensures
        at(dist, g, p[k]) is Some,
        at(dist, g, p[k]).unwrap() <= path_cost(g, p.take(k + 1)),
    decreases k,
{
    reveal(relaxed_except);
    if k == 0 {
        assert(p.take(1).len() == 1);
    } else {
        lemma_reach_prefix(g, dist, parent, closed, start, p, k - 1);
        let a = p[k - 1];
        let b = p[k];
        assert(open_cell(g, a));
        assert(open_cell(g, b));
        assert(adjacent(g, a, b));
        assert(at(closed, g, a));
        let t = p.take(k + 1);
        assert(t.drop_last() =~= p.take(k));
        assert(t[k - 1] == a && t[k] == b);
    }
}

/// On a path from the start to an unexpanded goal, some unexpanded cell has been
/// reached at no more than the cost of the path up to it.
proof fn lemma_first_unclosed(
    g: PathGrid,
    dist: Seq<Option<u128>>,
    parent: Seq<Cell>,
    closed: Seq<bool>,
    start: Cell,
    p: Seq<Cell>,
    k: int,
) -> (j: int)
    requires
        search_state(g, dist, parent, closed, start),
        relaxed_except(g, dist, closed, start, Set::empty()),
        is_path(g, p),
        p[0] == start,
        !at(closed, g, p.last()),
        0 <= k < p.len(),
        forall|i: int| 0 <= i < k ==> at(closed, g, #[trigger] p[i]),
    ensures
        k <= j < p.len(),
        !at(closed, g, p[j]),
        in_grid(g, p[j]),
        at(dist, g, p[j]) is Some,
        at(dist, g, p[j]).unwrap() <= path_cost(g, p.take(j + 1)),
    decreases p.len() - k,
{
    assert(open_cell(g, p[k]));
    if !at(closed, g, p[k]) {
        lemma_reach_prefix(g, dist, parent, closed, start, p, k);
        k
    } else {
        lemma_first_unclosed(g, dist, parent, closed, start, p, k + 1)
    }
}

/// When the goal is the frontier cell of least estimate, its distance is optimal.
proof fn lemma_goal_optimal(
    g: PathGrid,
    dist: Seq<Option<u128>>,
    parent: Seq<Cell>,
    closed: Seq<bool>,
    start: Cell,
    goal: Cell,
    p: Seq<Cell>,
)
    requires
        search_state(g, dist, parent, closed, start),
        relaxed_except(g, dist, closed, start, Set::empty()),
        in_grid(g, goal),
        !at(closed, g, goal),
        at(dist, g, goal) is Some,
        frontier_above(g, dist, closed, goal, goal),
        is_route(g, p, start, goal),
    ensures
        at(dist, g, goal).unwrap() <= path_cost(g, p),
{
    let j = lemma_first_unclosed(g, dist, parent, closed, start, p, 0);
    let x = p[j];
    reveal(frontier_above);
    assert(idx(g, x) == idx(g, x));
    lemma_skip_path(g, p, j);
    lemma_admissible(g, p.skip(j), goal);
    lemma_path_split(g, p, j);
}

/// When nothing is left on the frontier, no route reaches the unexpanded goal.
proof fn lemma_no_route(
    g: PathGrid,
    dist: Seq<Option<u128>>,
    parent: Seq<Cell>,
    closed: Seq<bool>,
    start: Cell,
    goal: Cell,
    p: Seq<Cell>,
)
    requires
        search_state(g, dist, parent, closed, start),
        relaxed_except(g, dist, closed, start, Set::empty()),
        in_grid(g, goal),
        !at(closed, g, goal),
        forall|x: Cell|
            #![trigger idx(g, x)]
            in_grid(g, x) && !at(closed, g, x) ==> at(dist, g, x) is None,
    ensures
        !is_route(g, p, start, goal),
{
    if is_route(g, p, start, goal) {
        let j = lemma_first_unclosed(g, dist, parent, closed, start, p, 0);
        assert(idx(g, p[j]) == idx(g, p[j]));
    }
}

fn index_of(grid: &PathGrid, c: Cell) -> (i: usize)
    requires
        grid.wf(),
        in_grid(*grid, c),
    ensures
        i as int == idx(*grid, c),
        i < grid.walkable@.len(),
{
    let n = grid.walkable.len();
    proof {
        lemma_index(*grid, c);
        assert(c.row as int * grid.cols as int <= n) by (nonlinear_arith)
            requires
                c.row < grid.rows,
                n == grid.rows as int * grid.cols as int,
        ;
    }
    c.row as usize * grid.cols as usize + c.col as usize
}

fn step_cost_exec(grid: &PathGrid, a: Cell, b: Cell) -> (w: u128)
    requires
        grid.wf(),
        in_grid(*grid, b),
    ensures
        w as int == step_cost(*grid, a, b),
        0 < w <= MAX_STEP_COST,
{
    let i = index_of(grid, b);
    let base: u128 = if a.row != b.row && a.col != b.col {
        DIAGONAL_STEP
    } else {
        ORTHOGONAL_STEP
    };
    let ov: u128 = match &grid.overlay {
        Some(v) => v[i] as u128,
        None => 0,
    };
    proof {
        lemma_step_cost(*grid, a, b);
    }
    base * (INTENSITY_UNIT + ov)
}

fn heuristic_exec(grid: &PathGrid, c: Cell, goal: Cell) -> (h: u128)
    ensures
        h as int == heuristic(*grid, c, goal),
        h <= 0x1_0000_0000_0000_0000,
{
    let dr: u128 = if c.row >= goal.row {
        (c.row - goal.row) as u128
    } else {
        (goal.row - c.row) as u128
    };
    let dc: u128 = if c.col >= goal.col {
        (c.col - goal.col) as u128
    } else {
        (goal.col - c.col) as u128
    };
    if grid.diagonal {
        let lo = if dr <= dc {
            dr
        } else {
            dc
        };
        let hi = if dr <= dc {
            dc
        } else {
            dr
        };
        INTENSITY_UNIT * (DIAGONAL_STEP * lo + ORTHOGONAL_STEP * (hi - lo))
    } else {
        INTENSITY_UNIT * (ORTHOGONAL_STEP * (dr + dc))
    }
}

proof fn lemma_relax_skip(
    g: PathGrid,
    dist: Seq<Option<u128>>,
    closed: Seq<bool>,
    u: Cell,
    todo: Set<Cell>,
    v: Cell,
)
    requires
        relaxed_except(g, dist, closed, u, todo),
        !open_cell(g, v) || (at(dist, g, v) is Some && at(dist, g, v).unwrap() <= at(
            dist,
            g,
            u,
        ).unwrap() + step_cost(g, u, v)),
    ensures
        relaxed_except(g, dist, closed, u, todo.remove(v)),
{
    reveal(relaxed_except);
}

/// Lowering the distance of the unexpanded cell `v` through `u` keeps the search
/// state.
#[verifier::rlimit(40)]
proof fn lemma_relax_update(
    g: PathGrid,
    d0: Seq<Option<u128>>,
    par_before: Seq<Cell>,
    d1: Seq<Option<u128>>,
    par_after: Seq<Cell>,
    closed: Seq<bool>,
    start: Cell,
    goal: Cell,
    u: Cell,
    du: u128,
    v: Cell,
    nd: u128,
    todo: Set<Cell>,
    bound: int,
)
    requires
        search_state(g, d0, par_before, closed, start),
        relaxed_except(g, d0, closed, u, todo),
        in_grid(g, u),
        at(closed, g, u),
        at(d0, g, u) == Some(du),
        open_cell(g, v),
        !at(closed, g, v),
        adjacent(g, u, v),
        capped_by(g, d0, closed, u, goal),
        frontier_above(g, d0, closed, u, goal),
        bounded(g, d0, bound),
        du + MAX_STEP_COST <= bound,
        nd == du + step_cost(g, u, v),
        at(d0, g, v) is None || nd < at(d0, g, v).unwrap(),
        d1 == d0.update(idx(g, v), Some(nd)),
        par_after == par_before.update(idx(g, v), u),
    ensures
        search_state(g, d1, par_after, closed, start),
        relaxed_except(g, d1, closed, u, todo.remove(v)),
        capped_by(g, d1, closed, u, goal),
        frontier_above(g, d1, closed, u, goal),
        bounded(g, d1, bound),
{
    lemma_index(g, v);
    lemma_index(g, u);
    lemma_step_cost(g, u, v);
    lemma_consistent(g, u, v, goal);
    assert forall|c: Cell| #![trigger idx(g, c)] in_grid(g, c) && c != v implies at(d1, g, c) == at(
        d0,
        g,
        c,
    ) && at(par_after, g, c) == at(par_before, g, c) by {
        if idx(g, c) == idx(g, v) {
            lemma_index_injective(g, c, v);
        }
        lemma_index(g, c);
    }
    assert(at(d1, g, v) == Some(nd));
    assert(at(par_after, g, v) == u);
    assert(u != v);
    assert(v != start) by {
        assert(at(d0, g, start) == Some(0u128));
    }
    assert(at(d1, g, start) == Some(0u128));
    assert(reached_open(g, d1)) by {
        reveal(reached_open);
        assert forall|c: Cell| #![trigger idx(g, c)] in_grid(g, c) && at(d1, g, c) is Some implies open_cell(
            g,
            c,
        ) by {
            if c != v {
                assert(at(d0, g, c) == at(d1, g, c));
            }
        }
    }
    assert(closed_reached(g, d1, closed)) by {
        reveal(closed_reached);
        assert forall|c: Cell| #![trigger idx(g, c)] in_grid(g, c) && at(closed, g, c) implies at(d1, g, c) is Some by {
            assert(c != v);
            assert(at(d0, g, c) == at(d1, g, c));
        }
    }
    assert(parents_ok(g, d1, par_after, closed, start)) by {
        reveal(parents_ok);
        reveal(closed_reached);
        assert forall|c: Cell|
            #![trigger idx(g, c)]
            in_grid(g, c) && at(d1, g, c) is Some && c != start implies {
                let p = at(par_after, g, c);
                &&& in_grid(g, p)
                &&& at(closed, g, p)
                &&& adjacent(g, p, c)
                &&& at(d1, g, p) is Some
                &&& at(d1, g, c).unwrap() == at(d1, g, p).unwrap() + step_cost(g, p, c)
            } by {
            if c != v {
                assert(at(d0, g, c) == at(d1, g, c));
                let p = at(par_before, g, c);
                assert(idx(g, p) == idx(g, p));
                assert(p != v);
                assert(at(d0, g, p) == at(d1, g, p));
            }
        }
    }
    assert(relaxed_except(g, d1, closed, u, todo.remove(v))) by {
        reveal(relaxed_except);
        reveal(closed_reached);
        assert forall|a: Cell, b: Cell|
            #![trigger adjacent(g, a, b)]
            in_grid(g, a) && at(closed, g, a) && open_cell(g, b) && adjacent(g, a, b) && !(a == u
                && todo.remove(v).contains(b)) implies at(d1, g, b) is Some && at(d1, g, b).unwrap()
            <= at(d1, g, a).unwrap() + step_cost(g, a, b) by {
            assert(a != v);
            assert(at(d0, g, a) == at(d1, g, a));
            if b != v {
                assert(at(d0, g, b) == at(d1, g, b));
            }
        }
    }
    assert(capped_by(g, d1, closed, u, goal)) by {
        reveal(capped_by);
        assert forall|a: Cell| #![trigger idx(g, a)] in_grid(g, a) && at(closed, g, a) implies f_of(
            g,
            d1,
            a,
            goal,
        ) <= f_of(g, d1, u, goal) by {
            assert(a != v);
            assert(at(d0, g, a) == at(d1, g, a));
        }
    }
    assert(frontier_above(g, d1, closed, u, goal)) by {
        reveal(frontier_above);
        assert forall|b: Cell|
            #![trigger idx(g, b)]
            in_grid(g, b) && !at(closed, g, b) && at(d1, g, b) is Some implies f_of(g, d1, u, goal)
                <= f_of(g, d1, b, goal) by {
            if b != v {
                assert(at(d0, g, b) == at(d1, g, b));
            }
        }
    }
    assert(bounded(g, d1, bound)) by {
        reveal(bounded);
        assert forall|c: Cell| #![trigger idx(g, c)] in_grid(g, c) && at(d1, g, c) is Some implies at(
            d1,
            g,
            c,
        ).unwrap() <= bound by {
            if c != v {
                assert(at(d0, g, c) == at(d1, g, c));
            }
        }
    }
}

/// Relaxes the move from the expanded cell `u` into its neighbour `v`.
fn relax(
    grid: &PathGrid,
    dist: &mut Vec<Option<u128>>,
    parent: &mut Vec<Cell>,
    closed: &Vec<bool>,
    start: Cell,
    goal: Cell,
    u: Cell,
    du: u128,
    v: Cell,
    Ghost(todo): Ghost<Set<Cell>>,
    Ghost(bound): Ghost<int>,
)
    requires
        search_state(*grid, old(dist)@, old(parent)@, closed@, start),
        relaxed_except(*grid, old(dist)@, closed@, u, todo),
        in_grid(*grid, u),
        at(closed@, *grid, u),
        at(old(dist)@, *grid, u) == Some(du),
        in_grid(*grid, v),
        adjacent(*grid, u, v),
        capped_by(*grid, old(dist)@, closed@, u, goal),
        frontier_above(*grid, old(dist)@, closed@, u, goal),
        bounded(*grid, old(dist)@, bound),
        du + MAX_STEP_COST <= bound,
        bound <= u128::MAX,
    ensures
        search_state(*grid, final(dist)@, final(parent)@, closed@, start),
        relaxed_except(*grid, final(dist)@, closed@, u, todo.remove(v)),
        at(final(dist)@, *grid, u) == Some(du),
        capped_by(*grid, final(dist)@, closed@, u, goal),
        frontier_above(*grid, final(dist)@, closed@, u, goal),
        bounded(*grid, final(dist)@, bound),
{
    let i = index_of(grid, v);
    proof {
        lemma_index(*grid, u);
        assert(idx(*grid, u) == idx(*grid, u));
        assert(idx(*grid, v) == idx(*grid, v));
    }
    if !grid.walkable[i] {
        proof {
            lemma_relax_skip(*grid, dist@, closed@, u, todo, v);
        }
        return;
    }
    if closed[i] {
        proof {
            reveal(closed_reached);
            reveal(capped_by);
            lemma_consistent(*grid, u, v, goal);
            lemma_relax_skip(*grid, dist@, closed@, u, todo, v);
        }
        return;
    }
    let w = step_cost_exec(grid, u, v);
    proof {
        reveal(bounded);
    }
    let nd: u128 = du + w;
    let better = match dist[i] {
        Some(d) => nd < d,
        None => true,
    };
    if !better {
        proof {
            lemma_relax_skip(*grid, dist@, closed@, u, todo, v);
        }
        return;
    }
    let ghost d0 = dist@;
    let ghost par_before = parent@;
    dist.set(i, Some(nd));
    parent.set(i, u);
    proof {
        lemma_relax_update(
            *grid,
            d0,
            par_before,
            dist@,
            parent@,
            closed@,
            start,
            goal,
            u,
            du,
            v,
            nd,
            todo,
            bound,
        );
        assert(u != v);
        if idx(*grid, u) == idx(*grid, v) {
            lemma_index_injective(*grid, u, v);
        }
        assert(at(dist@, *grid, u) == at(d0, *grid, u));
    }
}

proof fn lemma_extend_path(
    g: PathGrid,
    dist: Seq<Option<u128>>,
    parent: Seq<Cell>,
    closed: Seq<bool>,
    start: Cell,
    before: Seq<Cell>,
    v: Cell,
)
    requires
        search_state(g, dist, parent, closed, start),
        in_grid(g, v),
        at(dist, g, v) is Some,
        before.len() == 0 ==> v == start,
        before.len() > 0 ==> {
            &&& is_path(g, before)
            &&& path_cost(g, before) == at(dist, g, before.last()).unwrap()
            &&& v != start
            &&& before.last() == at(parent, g, v)
        },
    ensures
        is_path(g, before.push(v)),
        path_cost(g, before.push(v)) == at(dist, g, v).unwrap(),
{
    reveal(parents_ok);
    reveal(reached_open);
    let cells = before.push(v);
    assert(idx(g, v) == idx(g, v));
    assert(cells.drop_last() =~= before);
    if before.len() > 0 {
        assert forall|j: int| 0 <= j < cells.len() implies open_cell(g, #[trigger] cells[j]) by {
            if j < before.len() {
                assert(cells[j] == before[j]);
            }
        }
        assert forall|j: int| 0 <= j < cells.len() - 1 implies adjacent(
            g,
            #[trigger] cells[j],
            cells[j + 1],
        ) by {
            if j < before.len() - 1 {
                assert(cells[j] == before[j]);
                assert(cells[j + 1] == before[j + 1]);
                assert(adjacent(g, before[j], before[j + 1]));
            }
        }
    }
}

/// Follows the recorded predecessors back from `goal` to `start`.
fn reconstruct(
    grid: &PathGrid,
    dist: &Vec<Option<u128>>,
    parent: &Vec<Cell>,
    closed: &Vec<bool>,
    start: Cell,
    goal: Cell,
) -> (cells: Vec<Cell>)
    requires
        search_state(*grid, dist@, parent@, closed@, start),
        in_grid(*grid, goal),
        at(dist@, *grid, goal) is Some,
    ensures
        is_route(*grid, cells@, start, goal),
        path_cost(*grid, cells@) == at(dist@, *grid, goal).unwrap(),
{
    proof {
        reveal(parents_ok);
        reveal(reached_open);
    }
    let mut rev: Vec<Cell> = Vec::new();
    rev.push(goal);
    let mut cur = goal;
    while cur != start
        invariant
            search_state(*grid, dist@, parent@, closed@, start),
            rev@.len() >= 1,
            rev@[0] == goal,
            rev@.last() == cur,
            in_grid(*grid, cur),
            at(dist@, *grid, cur) is Some,
            forall|j: int|
                0 <= j < rev@.len() - 1 ==> #[trigger] rev@[j] != start && rev@[j + 1] == at(
                    parent@,
                    *grid,
                    rev@[j],
                ),
            forall|j: int|
                0 <= j < rev@.len() ==> in_grid(*grid, #[trigger] rev@[j]) && at(
                    dist@,
                    *grid,
                    rev@[j],
                ) is Some,
        decreases at(dist@, *grid, cur).unwrap(),
    {
        let i = index_of(grid, cur);
        let p = parent[i];
        proof {
            reveal(parents_ok);
            assert(idx(*grid, cur) == idx(*grid, cur));
            lemma_step_cost(*grid, p, cur);
        }
        rev.push(p);
        cur = p;
    }
    let len = rev.len();
    let mut cells: Vec<Cell> = Vec::new();
    let mut k: usize = len;
    while k > 0
        invariant
            search_state(*grid, dist@, parent@, closed@, start),
            len == rev@.len(),
            len >= 1,
            rev@[0] == goal,
            rev@[len - 1] == start,
            forall|j: int|
                0 <= j < rev@.len() - 1 ==> #[trigger] rev@[j] != start && rev@[j + 1] == at(
                    parent@,
                    *grid,
                    rev@[j],
                ),
            forall|j: int|
                0 <= j < rev@.len() ==> in_grid(*grid, #[trigger] rev@[j]) && at(
                    dist@,
                    *grid,
                    rev@[j],
                ) is Some,
            k <= len,
            cells@.len() == len - k,
            forall|j: int| 0 <= j < cells@.len() ==> #[trigger] cells@[j] == rev@[len - 1 - j],
            cells@.len() > 0 ==> is_path(*grid, cells@) && path_cost(*grid, cells@) == at(
                dist@,
                *grid,
                cells@.last(),
            ).unwrap(),
        decreases k,
    {
        k = k - 1;
        let v = rev[k];
        let ghost before = cells@;
        cells.push(v);
        proof {
            assert(in_grid(*grid, rev@[k as int]));
            if before.len() > 0 {
                assert(before.last() == rev@[k as int + 1]);
                assert(rev@[k as int] != start);
            }
            lemma_extend_path(*grid, dist@, parent@, closed@, start, before, v);
            assert(cells@ == before.push(v));
        }
    }
    proof {
        assert(cells@[0] == rev@[len - 1]);
        assert(cells@.last() == rev@[0]);
    }
    cells
}

/// Position of `b` among the nine cells around `u`, row by row.
pub open spec fn direction(u: Cell, b: Cell) -> int {
    (b.row - u.row + 1) * 3 + (b.col - u.col + 1)
}

/// The moves out of `u` not yet relaxed once the first `k` directions are done.
pub open spec fn pending(g: PathGrid, u: Cell, k: int) -> Set<Cell> {
    Set::new(|b: Cell| in_grid(g, b) && adjacent(g, u, b) && direction(u, b) >= k)
}

/// Expanding the frontier cell `u` of least estimate keeps the search state, with
/// all moves out of `u` still to relax.
proof fn lemma_close(
    g: PathGrid,
    dist: Seq<Option<u128>>,
    parent: Seq<Cell>,
    c0: Seq<bool>,
    c1: Seq<bool>,
    start: Cell,
    goal: Cell,
    u: Cell,
    bound: int,
)
    requires
        search_state(g, dist, parent, c0, start),
        relaxed_except(g, dist, c0, start, Set::empty()),
        ordered(g, dist, c0, goal),
        bounded(g, dist, bound),
        in_grid(g, u),
        !at(c0, g, u),
        at(dist, g, u) is Some,
        frontier_above(g, dist, c0, u, goal),
        c1 == c0.update(idx(g, u), true),
    ensures
        search_state(g, dist, parent, c1, start),
        relaxed_except(g, dist, c1, u, pending(g, u, 0)),
        capped_by(g, dist, c1, u, goal),
        frontier_above(g, dist, c1, u, goal),
        bounded(g, dist, bound),
        at(dist, g, u).unwrap() <= bound,
{
    lemma_index(g, u);
    assert forall|c: Cell| #![trigger idx(g, c)] in_grid(g, c) implies at(c1, g, c) == (at(c0, g, c)
        || c == u) by {
        lemma_index(g, c);
        if idx(g, c) == idx(g, u) {
            lemma_index_injective(g, c, u);
        }
    }
    assert(closed_reached(g, dist, c1)) by {
        reveal(closed_reached);
    }
    assert(parents_ok(g, dist, parent, c1, start)) by {
        reveal(parents_ok);
        assert forall|c: Cell|
            #![trigger idx(g, c)]
            in_grid(g, c) && at(dist, g, c) is Some && c != start implies {
                let p = at(parent, g, c);
                &&& in_grid(g, p)
                &&& at(c1, g, p)
                &&& adjacent(g, p, c)
                &&& at(dist, g, p) is Some
                &&& at(dist, g, c).unwrap() == at(dist, g, p).unwrap() + step_cost(g, p, c)
            } by {
            let p = at(parent, g, c);
            assert(idx(g, p) == idx(g, p));
        }
    }
    assert(relaxed_except(g, dist, c1, u, pending(g, u, 0))) by {
        reveal(relaxed_except);
        assert forall|a: Cell, b: Cell|
            #![trigger adjacent(g, a, b)]
            in_grid(g, a) && at(c1, g, a) && open_cell(g, b) && adjacent(g, a, b) && !(a == u
                && pending(g, u, 0).contains(b)) implies at(dist, g, b) is Some && at(dist, g, b).unwrap()
            <= at(dist, g, a).unwrap() + step_cost(g, a, b) by {
            assert(idx(g, a) == idx(g, a));
            if a == u {
                assert(pending(g, u, 0).contains(b));
            }
        }
    }
    assert(capped_by(g, dist, c1, u, goal)) by {
        reveal(capped_by);
        reveal(ordered);
        assert forall|a: Cell| #![trigger idx(g, a)] in_grid(g, a) && at(c1, g, a) implies f_of(
            g,
            dist,
            a,
            goal,
        ) <= f_of(g, dist, u, goal) by {
            if a != u {
                assert(at(c0, g, a));
                assert(idx(g, u) == idx(g, u));
            }
        }
    }
    assert(frontier_above(g, dist, c1, u, goal)) by {
        reveal(frontier_above);
    }
    assert(at(dist, g, u).unwrap() <= bound) by {
        reveal(bounded);
    }
}

/// Once every move out of `u` is relaxed, the search state holds with `u` expanded.
proof fn lemma_after_expand(
    g: PathGrid,
    dist: Seq<Option<u128>>,
    closed: Seq<bool>,
    start: Cell,
    goal: Cell,
    u: Cell,
)
    requires
        relaxed_except(g, dist, closed, u, pending(g, u, 9)),
        capped_by(g, dist, closed, u, goal),
        frontier_above(g, dist, closed, u, goal),
    ensures
        relaxed_except(g, dist, closed, start, Set::empty()),
        ordered(g, dist, closed, goal),
{
    reveal(relaxed_except);
    reveal(ordered);
    reveal(capped_by);
    reveal(frontier_above);
    assert forall|a: Cell, b: Cell|
        #![trigger adjacent(g, a, b)]
        in_grid(g, a) && at(closed, g, a) && open_cell(g, b) && adjacent(g, a, b) && !(a == start
            && Set::<Cell>::empty().contains(b)) implies at(dist, g, b) is Some && at(dist, g, b).unwrap()
        <= at(dist, g, a).unwrap() + step_cost(g, a, b) by {
        assert(!pending(g, u, 9).contains(b));
    }
    assert forall|a: Cell, b: Cell|
        #![trigger idx(g, a), idx(g, b)]
        in_grid(g, a) && in_grid(g, b) && at(closed, g, a) && !at(closed, g, b) && at(dist, g, b) is Some
            implies f_of(g, dist, a, goal) <= f_of(g, dist, b, goal) by {
    }
}

proof fn lemma_pending_step(g: PathGrid, u: Cell, k: int, dr: int, dc: int, taken: bool, v: Cell)
    requires
        0 <= k < 9,
        dr == k / 3 - 1,
        dc == k % 3 - 1,
        taken ==> in_grid(g, v) && v.row == u.row + dr && v.col == u.col + dc && adjacent(g, u, v),
        !taken ==> !(0 <= u.row + dr < g.rows && 0 <= u.col + dc < g.cols && (dr, dc) != (0int, 0int)
            && (g.diagonal || dr == 0 || dc == 0)),
    ensures
        taken ==> pending(g, u, k).remove(v) == pending(g, u, k + 1),
        !taken ==> pending(g, u, k) == pending(g, u, k + 1),
{
    assert forall|b: Cell| in_grid(g, b) && adjacent(g, u, b) && direction(u, b) == k implies b.row
        == u.row + dr && b.col == u.col + dc by {
    }
    if taken {
        assert(direction(u, v) == k);
        assert(pending(g, u, k).remove(v) =~= pending(g, u, k + 1));
    } else {
        assert(pending(g, u, k) =~= pending(g, u, k + 1));
    }
}

/// Relaxes every move out of the freshly expanded cell `u`.
fn expand(
    grid: &PathGrid,
    dist: &mut Vec<Option<u128>>,
    parent: &mut Vec<Cell>,
    closed: &Vec<bool>,
    start: Cell,
    goal: Cell,
    u: Cell,
    du: u128,
    Ghost(bound): Ghost<int>,
)
    requires
        search_state(*grid, old(dist)@, old(parent)@, closed@, start),
        relaxed_except(*grid, old(dist)@, closed@, u, pending(*grid, u, 0)),
        in_grid(*grid, u),
        at(closed@, *grid, u),
        at(old(dist)@, *grid, u) == Some(du),
        capped_by(*grid, old(dist)@, closed@, u, goal),
        frontier_above(*grid, old(dist)@, closed@, u, goal),
        bounded(*grid, old(dist)@, bound),
        du + MAX_STEP_COST <= bound,
        bound <= u128::MAX,
    ensures
        search_state(*grid, final(dist)@, final(parent)@, closed@, start),
        relaxed_except(*grid, final(dist)@, closed@, start, Set::empty()),
        ordered(*grid, final(dist)@, closed@, goal),
        bounded(*grid, final(dist)@, bound),
{
    let mut k: usize = 0;
    while k < 9
        invariant
            search_state(*grid, dist@, parent@, closed@, start),
            relaxed_except(*grid, dist@, closed@, u, pending(*grid, u, k as int)),
            in_grid(*grid, u),
            at(closed@, *grid, u),
            at(dist@, *grid, u) == Some(du),
            capped_by(*grid, dist@, closed@, u, goal),
            frontier_above(*grid, dist@, closed@, u, goal),
            bounded(*grid, dist@, bound),
            du + MAX_STEP_COST <= bound,
            bound <= u128::MAX,
            k <= 9,
        decreases 9 - k,
    {
        let dr: i64 = (k / 3) as i64 - 1;
        let dc: i64 = (k % 3) as i64 - 1;
        let nr: i64 = u.row as i64 + dr;
        let nc: i64 = u.col as i64 + dc;
        if 0 <= nr && nr < grid.rows as i64 && 0 <= nc && nc < grid.cols as i64 && !(dr == 0 && dc
            == 0) && (grid.diagonal || dr == 0 || dc == 0) {
            let v = Cell { row: nr as u32, col: nc as u32 };
            relax(grid, dist, parent, closed, start, goal, u, du, v, Ghost(pending(*grid, u, k as int)), Ghost(bound));
            proof {
                lemma_pending_step(*grid, u, k as int, dr as int, dc as int, true, v);
            }
        } else {
            proof {
                lemma_pending_step(*grid, u, k as int, dr as int, dc as int, false, u);
            }
        }
        k = k + 1;
    }
    proof {
        lemma_after_expand(*grid, dist@, closed@, start, goal, u);
    }
}

/// The unexpanded reached cell of least estimate, ties going to the smaller
/// estimate of the remaining cost and then to the earlier cell.
fn select(grid: &PathGrid, dist: &Vec<Option<u128>>, closed: &Vec<bool>, goal: Cell, Ghost(bound): Ghost<int>) -> (res: Option<(Cell, u128)>)
    requires
        grid.wf(),
        dist@.len() == grid.walkable@.len(),
        closed@.len() == grid.walkable@.len(),
        bounded(*grid, dist@, bound),
        bound <= 0xffff_ffff_ffff_ffff * MAX_STEP_COST,
    ensures
        match res {
            None => forall|x: Cell|
                #![trigger idx(*grid, x)]
                in_grid(*grid, x) && !at(closed@, *grid, x) ==> at(dist@, *grid, x) is None,
            Some((u, du)) => {
                &&& in_grid(*grid, u)
                &&& !at(closed@, *grid, u)
                &&& at(dist@, *grid, u) == Some(du)
                &&& frontier_above(*grid, dist@, closed@, u, goal)
            },
        },
{
    if grid.cols == 0 {
        return None;
    }
    let n = grid.walkable.len();
    let mut found = false;
    let mut best = Cell { row: 0, col: 0 };
    let mut best_d: u128 = 0;
    let mut best_f: u128 = 0;
    let mut best_h: u128 = 0;
    let mut i: usize = 0;
    let mut r: u32 = 0;
    let mut c: u32 = 0;
    while i < n
        invariant
            grid.wf(),
            grid.cols > 0,
            n == grid.walkable@.len(),
            dist@.len() == n,
            closed@.len() == n,
            bounded(*grid, dist@, bound),
            bound <= 0xffff_ffff_ffff_ffff * MAX_STEP_COST,
            i <= n,
            c < grid.cols,
            i == r as int * grid.cols as int + c as int,
            i < n ==> r < grid.rows,
            found ==> {
                &&& in_grid(*grid, best)
                &&& !at(closed@, *grid, best)
                &&& at(dist@, *grid, best) == Some(best_d)
                &&& best_f == f_of(*grid, dist@, best, goal)
                &&& best_h == heuristic(*grid, best, goal)
            },
            forall|x: Cell|
                #![trigger idx(*grid, x)]
                in_grid(*grid, x) && idx(*grid, x) < i && !at(closed@, *grid, x) && at(dist@, *grid, x) is Some
                    ==> found && best_f <= f_of(*grid, dist@, x, goal),
        decreases n - i,
    {
        let x = Cell { row: r, col: c };
        proof {
            assert(idx(*grid, x) == i);
            reveal(bounded);
        }
        if !closed[i] {
            match dist[i] {
                Some(d) => {
                    let h = heuristic_exec(grid, x, goal);
                    let f = d + h;
                    if !found || f < best_f || (f == best_f && h < best_h) {
                        found = true;
                        best = x;
                        best_d = d;
                        best_f = f;
                        best_h = h;
                    }
                },
                None => {},
            }
        }
        proof {
            assert forall|y: Cell|
                #![trigger idx(*grid, y)]
                in_grid(*grid, y) && idx(*grid, y) < i + 1 && !at(closed@, *grid, y) && at(dist@, *grid, y) is Some
                    implies found && best_f <= f_of(*grid, dist@, y, goal) by {
                if idx(*grid, y) == i {
                    lemma_index_injective(*grid, x, y);
                }
            }
        }
        i = i + 1;
        if c + 1 == grid.cols {
            proof {
                assert(r as int * grid.cols as int + grid.cols as int == (r + 1) * grid.cols as int)
                    by (nonlinear_arith);
                if i < n && r + 1 >= grid.rows {
                    assert((r + 1) * grid.cols as int >= grid.rows as int * grid.cols as int)
                        by (nonlinear_arith)
                        requires
                            r + 1 >= grid.rows,
                            grid.cols > 0,
                    ;
                }
            }
            c = 0;
            r = r + 1;
        } else {
            c = c + 1;
        }
    }
    proof {
        reveal(frontier_above);
        assert forall|y: Cell| #![trigger idx(*grid, y)] in_grid(*grid, y) implies idx(*grid, y) < n by {
            lemma_index(*grid, y);
        }
    }
    if found {
        Some((best, best_d))
    } else {
        None
    }
}

proof fn lemma_init(
    g: PathGrid,
    dist: Seq<Option<u128>>,
    parent: Seq<Cell>,
    closed: Seq<bool>,
    start: Cell,
    goal: Cell,
)
    requires
        g.wf(),
        open_cell(g, start),
        dist.len() == g.walkable@.len(),
        parent.len() == g.walkable@.len(),
        closed.len() == g.walkable@.len(),
        forall|j: int| 0 <= j < closed.len() ==> !closed[j],
        forall|j: int| 0 <= j < dist.len() && j != idx(g, start) ==> dist[j] is None,
        at(dist, g, start) == Some(0u128),
    ensures
        search_state(g, dist, parent, closed, start),
        relaxed_except(g, dist, closed, start, Set::empty()),
        ordered(g, dist, closed, goal),
        bounded(g, dist, 0),
{
    reveal(reached_open);
    reveal(closed_reached);
    reveal(parents_ok);
    reveal(relaxed_except);
    reveal(ordered);
    reveal(bounded);
    assert forall|c: Cell| #![trigger idx(g, c)] in_grid(g, c) implies (at(dist, g, c) is Some ==> c
        == start) && !at(closed, g, c) by {
        lemma_index(g, c);
        if idx(g, c) == idx(g, start) {
            lemma_index_injective(g, c, start);
        }
    }
}

/// Finds a cheapest route from `start` to `goal` by A* search.
///
/// Moves go to the four (or, on a diagonal grid, eight) neighbouring cells; moving
/// into a cell costs the plain step scaled by that cell's overlay intensity. A
/// request whose end points lie outside the grid or on blocked cells is refused.
/// When the goal cannot be reached the result holds no cells and no cost. With a
/// budget, the search gives up after that many expansions.
pub fn find_path(grid: &PathGrid, start: Cell, goal: Cell, max_expansions: Option<usize>) -> (r:
    Result<PathResult, PathError>)
    requires
        grid.wf(),
    ensures
        !in_grid(*grid, start) || !in_grid(*grid, goal) ==> r == Err::<PathResult, PathError>(
            PathError::OutOfBounds,
        ),
        in_grid(*grid, start) && in_grid(*grid, goal) && (!open_cell(*grid, start) || !open_cell(
            *grid,
            goal,
        )) ==> r == Err::<PathResult, PathError>(PathError::Unwalkable),
        r == Err::<PathResult, PathError>(PathError::SearchAborted) ==> match max_expansions {
            Some(m) => m < grid.walkable@.len(),
            None => false,
        },
        match r {
            Ok(res) => {
                &&& open_cell(*grid, start) && open_cell(*grid, goal)
                &&& match res.cost {
                    None => {
                        &&& res.cells@.len() == 0
                        &&& forall|p: Seq<Cell>| !is_route(*grid, p, start, goal)
                    },
                    Some(cost) => {
                        &&& is_route(*grid, res.cells@, start, goal)
                        &&& path_cost(*grid, res.cells@) == cost
                        &&& forall|p: Seq<Cell>|
                            is_route(*grid, p, start, goal) ==> cost <= path_cost(*grid, p)
                    },
                }
            },
            Err(PathError::OutOfBounds) => !in_grid(*grid, start) || !in_grid(*grid, goal),
            Err(PathError::Unwalkable) => in_grid(*grid, start) && in_grid(*grid, goal) && (
            !open_cell(*grid, start) || !open_cell(*grid, goal)),
            Err(PathError::SearchAborted) => open_cell(*grid, start) && open_cell(*grid, goal),
        },
        open_cell(*grid, start) && open_cell(*grid, goal) && max_expansions is None && (forall|
            p: Seq<Cell>,
        | !is_route(*grid, p, start, goal)) ==> match r {
            Ok(res) => res.cells@.len() == 0 && res.cost is None,
            Err(_) => false,
        },
        start == goal && open_cell(*grid, start) ==> match r {
            Ok(res) => res.cells@ == seq![start] && res.cost == Some(0u128),
            Err(_) => false,
        },
{
    if !(start.row < grid.rows && start.col < grid.cols && goal.row < grid.rows && goal.col
        < grid.cols) {
        return Err(PathError::OutOfBounds);
    }
    let si = index_of(grid, start);
    let gi = index_of(grid, goal);
    if !grid.walkable[si] || !grid.walkable[gi] {
        return Err(PathError::Unwalkable);
    }
    let n = grid.walkable.len();
    let mut dist: Vec<Option<u128>> = Vec::new();
    let mut parent: Vec<Cell> = Vec::new();
    let mut closed: Vec<bool> = Vec::new();
    let mut i: usize = 0;
    while i < n
        invariant
            i <= n,
            dist@.len() == i,
            parent@.len() == i,
            closed@.len() == i,
            forall|j: int| 0 <= j < i ==> #[trigger] dist@[j] is None,
            forall|j: int| 0 <= j < i ==> !#[trigger] closed@[j],
        decreases n - i,
    {
        dist.push(None);
        parent.push(start);
        closed.push(false);
        i = i + 1;
    }
    let ghost d0 = dist@;
    dist.set(si, Some(0));
    proof {
        assert forall|j: int| 0 <= j < dist@.len() && j != idx(*grid, start) implies dist@[j] is None by {
            assert(dist@[j] == d0[j]);
        }
        lemma_init(*grid, dist@, parent@, closed@, start, goal);
        assert(idx(*grid, goal) == idx(*grid, goal));
    }
    let ghost mut cs: Set<int> = Set::empty();
    let mut expansions: usize = 0;
    loop
        invariant
            grid.wf(),
            n == grid.walkable@.len(),
            open_cell(*grid, start),
            open_cell(*grid, goal),
            search_state(*grid, dist@, parent@, closed@, start),
            relaxed_except(*grid, dist@, closed@, start, Set::empty()),
            ordered(*grid, dist@, closed@, goal),
            bounded(*grid, dist@, cs.len() * MAX_STEP_COST),
            !at(closed@, *grid, goal),
            forall|j: int| 0 <= j < n ==> (cs.contains(j) <==> closed@[j]),
            cs.subset_of(set_int_range(0, n as int)),
            cs.finite(),
            cs.len() <= n,
            expansions == cs.len(),
            start == goal ==> cs.len() == 0,
        decreases n - cs.len(),
    {
        proof {
            assert(cs.len() * MAX_STEP_COST <= 0xffff_ffff_ffff_ffff * MAX_STEP_COST)
                by (nonlinear_arith)
                requires
                    cs.len() <= 0xffff_ffff_ffff_ffff,
            ;
        }
        let picked = select(grid, &dist, &closed, goal, Ghost(cs.len() * MAX_STEP_COST));
        let (u, du) = match picked {
            None => {
                proof {
                    assert forall|p: Seq<Cell>| !is_route(*grid, p, start, goal) by {
                        lemma_no_route(*grid, dist@, parent@, closed@, start, goal, p);
                    }
                }
                return Ok(PathResult { cells: Vec::new(), cost: None });
            },
            Some(pick) => pick,
        };
        proof {
            if start == goal {
                reveal(frontier_above);
                assert(idx(*grid, start) == idx(*grid, start));
                assert(!at(closed@, *grid, start)) by {
                    lemma_index(*grid, start);
                    assert(!cs.contains(idx(*grid, start)));
                }
                assert(idx(*grid, u) == idx(*grid, u));
                assert(u == goal);
            }
        }
        if u == goal {
            let cells = reconstruct(grid, &dist, &parent, &closed, start, goal);
            proof {
                assert forall|p: Seq<Cell>| is_route(*grid, p, start, goal) implies du <= path_cost(
                    *grid,
                    p,
                ) by {
                    lemma_goal_optimal(*grid, dist@, parent@, closed@, start, goal, p);
                }
                if start == goal {
                    let single = seq![start];
                    assert(is_route(*grid, single, start, goal));
                    lemma_cost_nonneg(*grid, cells@);
                    assert(cells@ =~= seq![start]);
                }
            }
            return Ok(PathResult { cells, cost: Some(du) });
        }
        let iu = index_of(grid, u);
        proof {
            assert(idx(*grid, u) == idx(*grid, u));
            assert(!cs.contains(iu as int));
            let range = set_int_range(0, n as int);
            lemma_int_range(0, n as int);
            assert(cs.subset_of(range.remove(iu as int)));
            lemma_len_subset(cs, range.remove(iu as int));
        }
        match max_expansions {
            Some(m) => {
                if expansions >= m {
                    return Err(PathError::SearchAborted);
                }
            },
            None => {},
        }
        let ghost c0 = closed@;
        let ghost old_len = cs.len();
        let ghost old_bound = cs.len() * MAX_STEP_COST;
        closed.set(iu, true);
        proof {
            lemma_close(*grid, dist@, parent@, c0, closed@, start, goal, u, old_bound);
            cs = cs.insert(iu as int);
            reveal(bounded);
            assert(cs.len() == old_len + 1);
            assert(cs.len() * MAX_STEP_COST == old_bound + MAX_STEP_COST) by (nonlinear_arith)
                requires
                    cs.len() == old_len + 1,
                    old_bound == old_len * MAX_STEP_COST,
            ;
            assert(cs.len() * MAX_STEP_COST <= 0xffff_ffff_ffff_ffff * MAX_STEP_COST)
                by (nonlinear_arith)
                requires
                    cs.len() <= 0xffff_ffff_ffff_ffff,
            ;
            assert(bounded(*grid, dist@, cs.len() * MAX_STEP_COST));
            if idx(*grid, goal) == iu {
                lemma_index_injective(*grid, goal, u);
            }
            assert(u != goal);
            lemma_index(*grid, goal);
            assert(idx(*grid, goal) != iu);
            assert(closed@[idx(*grid, goal)] == c0[idx(*grid, goal)]);
            assert(!at(closed@, *grid, goal));
        }
        expand(grid, &mut dist, &mut parent, &closed, start, goal, u, du, Ghost(cs.len() * MAX_STEP_COST));
        expansions = expansions + 1;
    }
}

} // verus!
