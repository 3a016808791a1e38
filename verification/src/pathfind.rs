use vstd::prelude::*;

use crate::entities::adjacent;
use crate::game_core::ObstacleType;
use crate::grid::{
    in_bounds, lemma_cell_index_bounds, lemma_cell_index_injective, spec_cell_index, CellRect, Grid,
};

verus! {

/// Destinations farther away than this many cells (by straight-line distance) are walked
/// to in a straight line instead of being searched for.
pub const SEARCH_RADIUS: u128 = 10;

/// Cost of a straight step, in millionths of a cell.
pub const STRAIGHT_STEP_COST: u128 = 1_000_000;

/// Cost of a diagonal step, in millionths of a cell.
pub const DIAGONAL_STEP_COST: u128 = 1_414_000;

/// Path costs and distances are counted in millionths of a cell.
pub const DISTANCE_SCALE_SQUARED: u128 = 1_000_000_000_000;

pub enum Destination {
    Point([u32; 2]),
    AdjacentToEntity(CellRect),
}

/// What a destination needs so that its bounding box can be computed.
pub open spec fn destination_valid(destination: Destination) -> bool {
    match destination {
        Destination::Point(_) => true,
        Destination::AdjacentToEntity(r) => {
            &&& r.position[0] + r.size[0] <= u32::MAX
            &&& r.position[1] + r.size[1] <= u32::MAX
        },
    }
}

/// Whether standing on `cell` means having reached the destination: being on the point,
/// or on or next to the entity's cells.
pub open spec fn destination_reached(destination: Destination, cell: [u32; 2]) -> bool {
    match destination {
        Destination::Point(p) => cell == p,
        Destination::AdjacentToEntity(r) => {
            &&& r.position[0] - 1 <= cell[0] <= r.position[0] + r.size[0]
            &&& r.position[1] - 1 <= cell[1] <= r.position[1] + r.size[1]
        },
    }
}

/// The cell that a straight walk to the destination heads for.
pub open spec fn destination_center(destination: Destination) -> [u32; 2] {
    match destination {
        Destination::Point(p) => p,
        Destination::AdjacentToEntity(r) => [
            (r.position[0] + r.size[0] / 2) as u32,
            (r.position[1] + r.size[1] / 2) as u32,
        ],
    }
}

/// The left edge of the cells that count as having reached the destination.
pub open spec fn destination_left(destination: Destination) -> int {
    match destination {
        Destination::Point(p) => p[0] as int,
        Destination::AdjacentToEntity(r) => r.position[0] - 1,
    }
}

pub open spec fn destination_top(destination: Destination) -> int {
    match destination {
        Destination::Point(p) => p[1] as int,
        Destination::AdjacentToEntity(r) => r.position[1] - 1,
    }
}

pub open spec fn destination_right(destination: Destination) -> int {
    match destination {
        Destination::Point(p) => p[0] as int,
        Destination::AdjacentToEntity(r) => r.position[0] + r.size[0],
    }
}

pub open spec fn destination_bottom(destination: Destination) -> int {
    match destination {
        Destination::Point(p) => p[1] as int,
        Destination::AdjacentToEntity(r) => r.position[1] + r.size[1],
    }
}

/// The squared straight-line distance from `cell` to the nearest cell that counts as
/// having reached the destination.
pub open spec fn destination_squared_distance(destination: Destination, cell: [u32; 2]) -> int {
    let dx = cell[0] - clamp(
        cell[0] as int,
        destination_left(destination),
        destination_right(destination),
    );
    let dy = cell[1] - clamp(
        cell[1] as int,
        destination_top(destination),
        destination_bottom(destination),
    );
    dx * dx + dy * dy
}

/// What a searched path is: a walk of free cells from `start` that ends where the
/// destination counts as reached (an empty walk when `start` already does).
pub open spec fn is_found_path(
    grid: Grid<ObstacleType>,
    start: [u32; 2],
    destination: Destination,
    path: Seq<[u32; 2]>,
) -> bool {
    &&& is_walk_from(start, path)
    &&& all_free(grid, path)
    &&& path.len() == 0 ==> destination_reached(destination, start)
    &&& path.len() > 0 ==> destination_reached(destination, path[0])
}

/// Whether a unit at `start` can be sent toward `destination`: one beyond the search radius
/// always can, a nearer one only where some walk of free cells reaches it.
pub open spec fn route_exists(grid: Grid<ObstacleType>, start: [u32; 2], destination: Destination) -> bool {
    ||| destination_squared_distance(destination, start) >= SEARCH_RADIUS * SEARCH_RADIUS
    ||| exists|walk: Seq<[u32; 2]>| #[trigger] is_found_path(grid, start, destination, walk)
}

/// The route a unit is sent along: the straight walk to the center of a destination beyond
/// the search radius, or a found path to a nearer one.
pub open spec fn is_route(
    grid: Grid<ObstacleType>,
    start: [u32; 2],
    destination: Destination,
    path: Seq<[u32; 2]>,
) -> bool {
    if destination_squared_distance(destination, start) >= SEARCH_RADIUS * SEARCH_RADIUS {
        path == spec_naive_path(start, destination_center(destination))
    } else {
        is_found_path(grid, start, destination, path)
    }
}

/// Finds the cells a unit at `start` walks through to reach `destination`, the last one
/// first and `start` left out. Destinations within the search radius are searched for
/// around obstacles, and the path found is a cheapest one up to the slack per step;
/// farther ones are walked to in a straight line, obstacles or not.
pub fn find_path(start: [u32; 2], destination: Destination, grid: &Grid<ObstacleType>) -> (path:
    Option<Vec<[u32; 2]>>)
    requires
        grid.wf(),
        in_bounds(grid.spec_dimensions(), start),
        destination_valid(destination),
    ensures
        destination_squared_distance(destination, start) >= SEARCH_RADIUS * SEARCH_RADIUS
            ==> (path matches Some(p) && p@ == spec_naive_path(
            start,
            destination_center(destination),
        )),
        destination_squared_distance(destination, start) < SEARCH_RADIUS * SEARCH_RADIUS ==> (
        path matches Some(p) ==> is_found_path(*grid, start, destination, p@)),
        destination_squared_distance(destination, start) < SEARCH_RADIUS * SEARCH_RADIUS ==> (
        path is None ==> forall|walk: Seq<[u32; 2]>|
            !(#[trigger] is_found_path(*grid, start, destination, walk))),
        path is Some <==> route_exists(*grid, start, destination),
        path matches Some(p) ==> is_route(*grid, start, destination, p@),
        destination_squared_distance(destination, start) < SEARCH_RADIUS * SEARCH_RADIUS ==> (
        path matches Some(p) ==> {
            &&& forall|i: int, j: int| 0 <= i < j < p@.len() ==> p@[i] != p@[j]
            &&& forall|k: int| 0 <= k < p@.len() ==> p@[k] != start
        }),
        destination_reached(destination, start) ==> (path matches Some(p) && p@.len() == 0),
        destination_squared_distance(destination, start) < SEARCH_RADIUS * SEARCH_RADIUS ==> (
        path matches Some(p) ==> forall|walk: Seq<[u32; 2]>|
            #[trigger] is_found_path(*grid, start, destination, walk) ==> walk_cost(start, p@)
                <= walk_cost(start, walk) + PATH_COST_SLACK_PER_STEP * walk.len()),
{
    let center = destination.center();
    let rect = destination.rect();
    proof {
        if destination_reached(destination, start) {
            assert(rect.spec_contains(start));
            assert(clamp(start[0] as int, rect.left as int, rect.right as int) == start[0]);
            assert(clamp(start[1] as int, rect.top as int, rect.bottom as int) == start[1]);
            let dx = start[0] - clamp(start[0] as int, rect.left as int, rect.right as int);
            let dy = start[1] - clamp(start[1] as int, rect.top as int, rect.bottom as int);
            assert(dx * dx + dy * dy == 0) by (nonlinear_arith)
                requires
                    dx == 0,
                    dy == 0,
            ;
            assert(rect.spec_squared_distance(start) == 0);
        }
    }
    if rect.squared_distance(start) < SEARCH_RADIUS * SEARCH_RADIUS {
        let path = a_star(start, rect, grid);
        proof {
            if path is None {
                assert forall|walk: Seq<[u32; 2]>| !(#[trigger] is_found_path(*grid, start, destination, walk)) by {
                    if is_found_path(*grid, start, destination, walk) && walk.len() > 0 {
                        assert(rect.spec_contains(walk[0]));
                    }
                }
            } else {
                assert(is_found_path(*grid, start, destination, path->Some_0@));
                assert forall|walk: Seq<[u32; 2]>| #[trigger] is_found_path(*grid, start, destination, walk)
                    implies walk_cost(start, path->Some_0@) <= walk_cost(start, walk) + PATH_COST_SLACK_PER_STEP
                    * walk.len() by {
                    if walk.len() > 0 {
                        assert(rect.spec_contains(walk[0]));
                    } else {
                        assert(rect.spec_contains(start));
                    }
                }
            }
        }
        path
    } else {
        Some(naive_path(start, center))
    }
}

impl Destination {
    pub fn center(&self) -> (center: [u32; 2])
        requires
            destination_valid(*self),
        ensures
            center == destination_center(*self),
    {
        match self {
            Destination::Point(p) => *p,
            Destination::AdjacentToEntity(entity_rect) => [
                entity_rect.position[0] + entity_rect.size[0] / 2,
                entity_rect.position[1] + entity_rect.size[1] / 2,
            ],
        }
    }

    fn rect(&self) -> (rect: Rect)
        requires
            destination_valid(*self),
        ensures
            rect.wf(),
            rect.left == destination_left(*self),
            rect.top == destination_top(*self),
            rect.right == destination_right(*self),
            rect.bottom == destination_bottom(*self),
            forall|cell: [u32; 2]| #[trigger]
                rect.spec_contains(cell) == destination_reached(*self, cell),
    {
        match self {
            Destination::Point(position) => {
                let rect = Rect {
                    left: position[0] as i64,
                    top: position[1] as i64,
                    right: position[0],
                    bottom: position[1],
                };
                assert forall|cell: [u32; 2]| #[trigger]
                    rect.spec_contains(cell) == destination_reached(*self, cell) by {
                    if rect.spec_contains(cell) {
                        assert(cell =~= *position);
                    }
                }
                rect
            },
            Destination::AdjacentToEntity(entity_rect) => Rect {
                left: entity_rect.position[0] as i64 - 1,
                top: entity_rect.position[1] as i64 - 1,
                right: entity_rect.position[0] + entity_rect.size[0],
                bottom: entity_rect.position[1] + entity_rect.size[1],
            },
        }
    }
}

/// A rectangle of cells given by its inclusive edges; the left and top edges may lie
/// just outside the grid.
#[derive(Copy, Clone)]
struct Rect {
    left: i64,
    top: i64,
    right: u32,
    bottom: u32,
}

/// The number in `[lo, hi]` closest to `v`.
pub open spec fn clamp(v: int, lo: int, hi: int) -> int {
    if v < lo {
        lo
    } else if v > hi {
        hi
    } else {
        v
    }
}

/// The largest integer whose square is at most `n`.
pub open spec fn is_isqrt(n: int, r: int) -> bool {
    0 <= r && r * r <= n < (r + 1) * (r + 1)
}

impl Rect {
    spec fn wf(&self) -> bool {
        &&& -1 <= self.left <= self.right
        &&& -1 <= self.top <= self.bottom
    }

    spec fn spec_contains(&self, cell: [u32; 2]) -> bool {
        &&& self.left <= cell[0] <= self.right
        &&& self.top <= cell[1] <= self.bottom
    }

    /// The squared straight-line distance from `cell` to the nearest cell of the rectangle,
    /// treating the left and top edges as lying at least at zero.
    spec fn spec_squared_distance(&self, cell: [u32; 2]) -> int {
        let dx = cell[0] - clamp(cell[0] as int, self.left as int, self.right as int);
        let dy = cell[1] - clamp(cell[1] as int, self.top as int, self.bottom as int);
        dx * dx + dy * dy
    }

    fn contains(&self, cell: [u32; 2]) -> (inside: bool)
        ensures
            inside == self.spec_contains(cell),
    {
        cell[0] as i64 >= self.left && cell[1] as i64 >= self.top && cell[0] <= self.right
            && cell[1] <= self.bottom
    }

    fn squared_distance(&self, cell: [u32; 2]) -> (d: u128)
        requires
            self.wf(),
        ensures
            d == self.spec_squared_distance(cell),
            d <= 0x2_0000_0002_0000_0002,
    {
        let x = cell[0] as i64;
        let y = cell[1] as i64;
        let cx: i64 = if x < self.left {
            self.left
        } else if x > self.right as i64 {
            self.right as i64
        } else {
            x
        };
        let cy: i64 = if y < self.top {
            self.top
        } else if y > self.bottom as i64 {
            self.bottom as i64
        } else {
            y
        };
        assert(-1 <= cx <= 0xffff_ffff);
        assert(-1 <= cy <= 0xffff_ffff);
        assert(0 <= x <= 0xffff_ffff);
        assert(0 <= y <= 0xffff_ffff);
        let dx: u128 = if x >= cx {
            (x - cx) as u128
        } else {
            (cx - x) as u128
        };
        let dy: u128 = if y >= cy {
            (y - cy) as u128
        } else {
            (cy - y) as u128
        };
        assert(dx * dx <= 0xffff_ffff_ffff_ffff_ffff_ffff_ffff_ffff) by (nonlinear_arith)
            requires
                dx <= 0x1_0000_0000,
        ;
        assert(dy * dy <= 0xffff_ffff_ffff_ffff_ffff_ffff_ffff_ffff) by (nonlinear_arith)
            requires
                dy <= 0x1_0000_0000,
        ;
        assert(dx * dx + dy * dy <= 0x2_0000_0002_0000_0002) by (nonlinear_arith)
            requires
                dx <= 0x1_0000_0000,
                dy <= 0x1_0000_0000,
        ;
        proof {
            let ix = cell[0] - clamp(cell[0] as int, self.left as int, self.right as int);
            let iy = cell[1] - clamp(cell[1] as int, self.top as int, self.bottom as int);
            assert(dx * dx == ix * ix) by (nonlinear_arith)
                requires
                    dx == ix || dx == -ix,
            ;
            assert(dy * dy == iy * iy) by (nonlinear_arith)
                requires
                    dy == iy || dy == -iy,
            ;
        }
        dx * dx + dy * dy
    }

    /// The straight-line distance from `cell` to the rectangle, in millionths of a cell,
    /// rounded down.
    fn distance(&self, cell: [u32; 2]) -> (d: u128)
        requires
            self.wf(),
        ensures
            is_isqrt(self.spec_squared_distance(cell) * DISTANCE_SCALE_SQUARED, d as int),
        d <= 0x1_0000_0000_0000_0000,
    {
        let squared = self.squared_distance(cell);
        assert(squared * DISTANCE_SCALE_SQUARED <= 0x1_0000_0000_0000_0000_0000_0000_0000_0000)
            by (nonlinear_arith)
            requires
                squared <= 0x2_0000_0002_0000_0002,
        ;
        let d = isqrt(squared * DISTANCE_SCALE_SQUARED);
        assert(d <= 0x1_0000_0000_0000_0000) by (nonlinear_arith)
            requires
                d * d <= squared * DISTANCE_SCALE_SQUARED,
                squared * DISTANCE_SCALE_SQUARED <= 0x1_0000_0000_0000_0000_0000_0000_0000_0000,
        ;
        d
    }
}

/// Integer square root, rounded down.
pub fn isqrt(n: u128) -> (r: u128)
    requires
        n <= 0x1_0000_0000_0000_0000_0000_0000_0000_0000,
    ensures
        is_isqrt(n as int, r as int),
{
    let mut lo: u128 = 0;
    let mut hi: u128 = 0x1_0000_0000_0000_0000;
    assert(hi * hi > n) by (nonlinear_arith)
        requires
            hi == 0x1_0000_0000_0000_0000u128,
            n <= 0x1_0000_0000_0000_0000_0000_0000_0000_0000,
    ;
    while hi - lo > 1
        invariant
            lo < hi <= 0x1_0000_0000_0000_0000,
            lo * lo <= n,
            hi * hi > n,
        decreases hi - lo,
    {
        let mid = lo + (hi - lo) / 2;
        assert(mid * mid < 0x1_0000_0000_0000_0000_0000_0000_0000_0000) by (nonlinear_arith)
            requires
                mid < 0x1_0000_0000_0000_0000,
        ;
        if mid * mid <= n {
            lo = mid;
        } else {
            hi = mid;
        }
    }
    assert(hi == lo + 1);
    lo
}

/// Coordinate `k` steps from `from` towards `to`, stopping at `to`.
pub open spec fn step_toward(from: u32, to: u32, k: int) -> u32 {
    if from <= to {
        if k < to - from {
            (from + k) as u32
        } else {
            to
        }
    } else {
        if k < from - to {
            (from - k) as u32
        } else {
            to
        }
    }
}

/// Distance between two coordinates.
pub open spec fn coordinate_distance(a: u32, b: u32) -> int {
    if a <= b {
        b - a
    } else {
        a - b
    }
}

proof fn lemma_step_toward_reaches(from: u32, to: u32, k: int)
    requires
        k >= 0,
    ensures
        (step_toward(from, to, k) == to) <==> k >= coordinate_distance(from, to),
{
}

/// Number of steps a straight walk from `a` to `b` takes, moving diagonally while both
/// coordinates differ.
pub open spec fn chebyshev_distance(a: [u32; 2], b: [u32; 2]) -> nat {
    let dx = coordinate_distance(a[0], b[0]);
    let dy = coordinate_distance(a[1], b[1]);
    if dx >= dy {
        dx as nat
    } else {
        dy as nat
    }
}

/// The cell reached after `k` steps of a straight walk.
pub open spec fn straight_walk_cell(start: [u32; 2], goal: [u32; 2], k: int) -> [u32; 2] {
    [step_toward(start[0], goal[0], k), step_toward(start[1], goal[1], k)]
}

/// A straight walk from `start` to `goal`, the last step first.
pub open spec fn spec_naive_path(start: [u32; 2], goal: [u32; 2]) -> Seq<[u32; 2]> {
    let n = chebyshev_distance(start, goal);
    Seq::new(n, |j: int| straight_walk_cell(start, goal, n - j))
}

/// Whether `path`, read from its end, is a walk of neighbouring cells leaving `start`.
pub open spec fn is_walk_from(start: [u32; 2], path: Seq<[u32; 2]>) -> bool {
    &&& path.len() > 0 ==> adjacent(start, path.last())
    &&& forall|k: int| 0 <= k < path.len() - 1 ==> adjacent(path[k + 1], #[trigger] path[k])
}

proof fn lemma_step_toward_step(from: u32, to: u32, k: int)
    requires
        k >= 0,
    ensures
        -1 <= step_toward(from, to, k + 1) - step_toward(from, to, k) <= 1,
        k < coordinate_distance(from, to) ==> step_toward(from, to, k + 1) != step_toward(from, to, k),
        from <= to ==> from <= step_toward(from, to, k) <= to,
        from > to ==> to <= step_toward(from, to, k) <= from,
{
}

/// Consecutive cells of a straight walk are neighbours.
proof fn lemma_straight_walk_step(start: [u32; 2], goal: [u32; 2], k: int)
    requires
        0 <= k < chebyshev_distance(start, goal),
    ensures
        adjacent(straight_walk_cell(start, goal, k), straight_walk_cell(start, goal, k + 1)),
{
    lemma_step_toward_step(start[0], goal[0], k);
    lemma_step_toward_step(start[1], goal[1], k);
    let a = straight_walk_cell(start, goal, k);
    let b = straight_walk_cell(start, goal, k + 1);
    assert(a[0] != b[0] || a[1] != b[1]);
}

/// A straight walk is a walk of neighbouring cells.
pub proof fn lemma_naive_path_walk(start: [u32; 2], goal: [u32; 2])
    ensures
        is_walk_from(start, spec_naive_path(start, goal)),
{
    let path = spec_naive_path(start, goal);
    let n = chebyshev_distance(start, goal) as int;
    if n > 0 {
        lemma_straight_walk_step(start, goal, 0);
        assert(path.last() == straight_walk_cell(start, goal, 1));
        assert(straight_walk_cell(start, goal, 0) =~= start);
    }
    assert forall|j: int| 0 <= j < path.len() - 1 implies adjacent(path[j + 1], #[trigger] path[j]) by {
        assert(path[j] == straight_walk_cell(start, goal, n - j));
        assert(path[j + 1] == straight_walk_cell(start, goal, n - j - 1));
        lemma_straight_walk_step(start, goal, n - j - 1);
    }
}

/// A straight walk between two cells of the grid stays in the grid.
pub proof fn lemma_naive_path_in_bounds(start: [u32; 2], goal: [u32; 2], dimensions: [u32; 2])
    requires
        in_bounds(dimensions, start),
        in_bounds(dimensions, goal),
    ensures
        forall|k: int|
            0 <= k < spec_naive_path(start, goal).len() ==> in_bounds(
                dimensions,
                #[trigger] spec_naive_path(start, goal)[k],
            ),
{
    let path = spec_naive_path(start, goal);
    let n = chebyshev_distance(start, goal) as int;
    assert forall|k: int| 0 <= k < path.len() implies in_bounds(dimensions, #[trigger] path[k]) by {
        lemma_step_toward_step(start[0], goal[0], n - k);
        lemma_step_toward_step(start[1], goal[1], n - k);
    }
}

fn naive_path(start: [u32; 2], goal: [u32; 2]) -> (plan: Vec<[u32; 2]>)
    ensures
        plan@ == spec_naive_path(start, goal),
{
    let mut x = start[0];
    let mut y = start[1];
    let mut plan: Vec<[u32; 2]> = Vec::new();
    let ghost n = chebyshev_distance(start, goal);
    let mut k: u32 = 0;
    proof {
        lemma_step_toward_reaches(start[0], goal[0], 0);
        lemma_step_toward_reaches(start[1], goal[1], 0);
    }
    while !(x == goal[0] && y == goal[1])
        invariant
            n == chebyshev_distance(start, goal),
            k <= n,
            x == step_toward(start[0], goal[0], k as int),
            y == step_toward(start[1], goal[1], k as int),
            (x == goal[0] && y == goal[1]) <==> k == n,
            plan@.len() == k,
            forall|j: int| 0 <= j < k ==> plan@[j] == straight_walk_cell(start, goal, j + 1),
        decreases n - k,
    {
        proof {
            lemma_step_toward_reaches(start[0], goal[0], k as int);
            lemma_step_toward_reaches(start[1], goal[1], k as int);
        }
        if goal[0] < x {
            x = x - 1;
        } else if goal[0] > x {
            x = x + 1;
        }
        if goal[1] < y {
            y = y - 1;
        } else if goal[1] > y {
            y = y + 1;
        }
        assert([x, y] =~= straight_walk_cell(start, goal, k + 1));
        plan.push([x, y]);
        k = k + 1;
        proof {
            lemma_step_toward_reaches(start[0], goal[0], k as int);
            lemma_step_toward_reaches(start[1], goal[1], k as int);
        }
    }
    let reversed = reverse_cells(&plan);
    assert(reversed@ =~= spec_naive_path(start, goal));
    reversed
}

/// The cells in reverse order.
fn reverse_cells(cells: &Vec<[u32; 2]>) -> (reversed: Vec<[u32; 2]>)
    ensures
        reversed@ == cells@.reverse(),
{
    let mut reversed: Vec<[u32; 2]> = Vec::new();
    let n = cells.len();
    let mut i = n;
    while i > 0
        invariant
            i <= n,
            n == cells@.len(),
            reversed@ =~= cells@.subrange(i as int, n as int).reverse(),
        decreases i,
    {
        i = i - 1;
        reversed.push(cells[i]);
    }
    reversed
}


/// Sum of a sequence of path costs.
spec fn cost_sum(s: Seq<u128>) -> int
    decreases s.len(),
{
    if s.len() == 0 {
        0
    } else {
        cost_sum(s.drop_last()) + s.last()
    }
}

proof fn lemma_cost_sum_update(s: Seq<u128>, i: int, v: u128)
    requires
        0 <= i < s.len(),
    ensures
        cost_sum(s.update(i, v)) == cost_sum(s) - s[i] + v,
    decreases s.len(),
{
    let t = s.update(i, v);
    if i == s.len() - 1 {
        assert(t.drop_last() =~= s.drop_last());
    } else {
        assert(t.drop_last() =~= s.drop_last().update(i, v));
        lemma_cost_sum_update(s.drop_last(), i, v);
    }
}

proof fn lemma_cost_sum_nonnegative(s: Seq<u128>)
    ensures
        cost_sum(s) >= 0,
    decreases s.len(),
{
    if s.len() > 0 {
        lemma_cost_sum_nonnegative(s.drop_last());
    }
}

/// How many cells have a known cost.
spec fn finite_count(s: Seq<u128>) -> nat
    decreases s.len(),
{
    if s.len() == 0 {
        0
    } else {
        finite_count(s.drop_last()) + if s.last() != UNKNOWN_COST { 1nat } else { 0nat }
    }
}

proof fn lemma_finite_count_update(s: Seq<u128>, i: int, v: u128)
    requires
        0 <= i < s.len(),
    ensures
        finite_count(s.update(i, v)) == finite_count(s) - (if s[i] != UNKNOWN_COST { 1int } else { 0 })
            + (if v != UNKNOWN_COST { 1int } else { 0 }),
    decreases s.len(),
{
    let t = s.update(i, v);
    if i == s.len() - 1 {
        assert(t.drop_last() =~= s.drop_last());
    } else {
        assert(t.drop_last() =~= s.drop_last().update(i, v));
        lemma_finite_count_update(s.drop_last(), i, v);
    }
}

proof fn lemma_finite_count_len(s: Seq<u128>)
    ensures
        finite_count(s) <= s.len(),
    decreases s.len(),
{
    if s.len() > 0 {
        lemma_finite_count_len(s.drop_last());
    }
}

/// Marks a cell whose cost is not known yet.
const UNKNOWN_COST: u128 = 0xffff_ffff_ffff_ffff_ffff_ffff_ffff_ffff;

/// The cost known for an in-grid cell.
spec fn cost_at(costs: Seq<u128>, dimensions: [u32; 2], cell: [u32; 2]) -> u128 {
    costs[spec_cell_index(dimensions, cell)]
}

/// The cell that an in-grid cell was best reached from.
spec fn parent_at(came_from: Seq<Option<[u32; 2]>>, dimensions: [u32; 2], cell: [u32; 2]) -> Option<
    [u32; 2],
> {
    came_from[spec_cell_index(dimensions, cell)]
}

/// Whether an in-grid cell is walkable.
pub open spec fn is_free(grid: Grid<ObstacleType>, cell: [u32; 2]) -> bool {
    grid.cell(cell) == Some(ObstacleType::Free)
}

/// What the search keeps true: every cell reached so far other than the start is free and
/// was reached from a neighbour of lower cost, and every entry of the open set is a
/// reached cell.
spec fn search_inv(
    grid: Grid<ObstacleType>,
    start: [u32; 2],
    costs: Seq<u128>,
    came_from: Seq<Option<[u32; 2]>>,
    open_set: Seq<RatedNode>,
) -> bool {
    let dimensions = grid.spec_dimensions();
    &&& grid.wf()
    &&& costs.len() == dimensions[0] * dimensions[1]
    &&& came_from.len() == dimensions[0] * dimensions[1]
    &&& in_bounds(dimensions, start)
    &&& cost_at(costs, dimensions, start) == 0
    &&& parent_at(came_from, dimensions, start) is None
    &&& forall|k: int|
        0 <= k < open_set.len() ==> in_bounds(dimensions, #[trigger] open_set[k].0) && cost_at(
            costs,
            dimensions,
            open_set[k].0,
        ) != UNKNOWN_COST
    &&& forall|c: [u32; 2]|
        #![trigger cost_at(costs, dimensions, c)]
        in_bounds(dimensions, c) && cost_at(costs, dimensions, c) != UNKNOWN_COST ==> cost_at(
            costs,
            dimensions,
            c,
        ) <= DIAGONAL_STEP_COST * finite_count(costs)
    &&& forall|c: [u32; 2]|
        #![trigger cost_at(costs, dimensions, c)]
        #![trigger parent_at(came_from, dimensions, c)]
        in_bounds(dimensions, c) ==> {
            &&& (cost_at(costs, dimensions, c) != UNKNOWN_COST && c != start) ==> parent_at(
                came_from,
                dimensions,
                c,
            ) is Some
            &&& parent_at(came_from, dimensions, c) matches Some(p) ==> {
                &&& in_bounds(dimensions, p)
                &&& adjacent(p, c)
                &&& cost_at(costs, dimensions, p) < cost_at(costs, dimensions, c)
                &&& cost_at(costs, dimensions, p) + step_cost(p, c) <= cost_at(costs, dimensions, c)
                &&& cost_at(costs, dimensions, c) != UNKNOWN_COST
                &&& is_free(grid, c)
                &&& c != start
            }
        }
}

/// The distance estimate for `cell`: its straight-line distance to the destination in
/// millionths of a cell, rounded down.
spec fn is_estimate(destination: Rect, cell: [u32; 2], estimate: int) -> bool {
    is_isqrt(destination.spec_squared_distance(cell) * DISTANCE_SCALE_SQUARED, estimate)
}

/// Some entry of the open set is for `cell`, rated by the cell's current cost plus its
/// distance estimate.
spec fn open_has_current(
    open_set: Seq<RatedNode>,
    costs: Seq<u128>,
    dimensions: [u32; 2],
    destination: Rect,
    cell: [u32; 2],
) -> bool {
    exists|k: int|
        0 <= k < open_set.len() && #[trigger] open_set[k].0 == cell && is_estimate(
            destination,
            cell,
            open_set[k].1 - cost_at(costs, dimensions, cell),
        )
}

/// No entry of the open set is rated below the cost of its cell.
spec fn entries_rated(open_set: Seq<RatedNode>, costs: Seq<u128>, dimensions: [u32; 2]) -> bool {
    forall|k: int| 0 <= k < open_set.len() ==> cost_at(costs, dimensions, (#[trigger] open_set[k]).0) <= open_set[k].1
}

/// A settled cell lies outside the destination, and each of its walkable neighbours is known
/// for at most the cell's cost plus the step to it.
spec fn settled(grid: Grid<ObstacleType>, costs: Seq<u128>, destination: Rect, c: [u32; 2]) -> bool {
    &&& !destination.spec_contains(c)
    &&& forall|n: [u32; 2]|
        #![trigger adjacent(c, n)]
        in_bounds(grid.spec_dimensions(), n) && adjacent(c, n) && is_free(grid, n) ==> cost_at(
            costs,
            grid.spec_dimensions(),
            n,
        ) <= cost_at(costs, grid.spec_dimensions(), c) + step_cost(c, n)
}

/// What makes the search find a cheapest path: the open set is a heap whose entries are rated
/// at least at their cells' costs, and every reached cell is settled or waits in the open set
/// rated by its current cost.
spec fn search_ordered(grid: Grid<ObstacleType>, costs: Seq<u128>, open_set: Seq<RatedNode>, destination: Rect) -> bool {
    &&& heap_ordered(open_set)
    &&& entries_rated(open_set, costs, grid.spec_dimensions())
    &&& forall|c: [u32; 2]|
        #![trigger cost_at(costs, grid.spec_dimensions(), c)]
        in_bounds(grid.spec_dimensions(), c) && cost_at(costs, grid.spec_dimensions(), c) != UNKNOWN_COST
            ==> open_has_current(open_set, costs, grid.spec_dimensions(), destination, c) || settled(
            grid,
            costs,
            destination,
            c,
        )
}

/// The cost of stepping between two neighbouring cells.
fn neighbor_distance(cell: [u32; 2], neighbor: [u32; 2]) -> (cost: u128)
    ensures
        cost == if cell[0] != neighbor[0] && cell[1] != neighbor[1] {
            DIAGONAL_STEP_COST
        } else {
            STRAIGHT_STEP_COST
        },
{
    if cell[0] != neighbor[0] && cell[1] != neighbor[1] {
        DIAGONAL_STEP_COST
    } else {
        STRAIGHT_STEP_COST
    }
}

proof fn lemma_index_update<T>(
    table: Seq<T>,
    dimensions: [u32; 2],
    cell: [u32; 2],
    value: T,
    other: [u32; 2],
)
    requires
        in_bounds(dimensions, cell),
        in_bounds(dimensions, other),
        table.len() == dimensions[0] * dimensions[1],
    ensures
        table.update(spec_cell_index(dimensions, cell), value)[spec_cell_index(dimensions, other)]
            == if other == cell {
            value
        } else {
            table[spec_cell_index(dimensions, other)]
        },
{
    lemma_cell_index_bounds(dimensions, cell);
    lemma_cell_index_bounds(dimensions, other);
    if other != cell {
        lemma_cell_index_injective(dimensions, cell, other);
    }
}

/// Records that `neighbor` is reached more cheaply, for `new_cost`, from `current`: its cost
/// and predecessor are updated and it is put into the open set.
fn record_cheaper_path(
    current: [u32; 2],
    neighbor: [u32; 2],
    new_cost: u128,
    destination: &Rect,
    grid: &Grid<ObstacleType>,
    start: [u32; 2],
    costs: &mut Vec<u128>,
    came_from: &mut Vec<Option<[u32; 2]>>,
    open_set: &mut Vec<RatedNode>,
)
    requires
        destination.wf(),
        search_inv(*grid, start, old(costs)@, old(came_from)@, old(open_set)@),
        in_bounds(grid.spec_dimensions(), current),
        in_bounds(grid.spec_dimensions(), neighbor),
        adjacent(current, neighbor),
        is_free(*grid, neighbor),
        cost_at(old(costs)@, grid.spec_dimensions(), current) != UNKNOWN_COST,
        new_cost == cost_at(old(costs)@, grid.spec_dimensions(), current) + (if current[0] != neighbor[0]
            && current[1] != neighbor[1] {
            DIAGONAL_STEP_COST
        } else {
            STRAIGHT_STEP_COST
        }),
        new_cost < cost_at(old(costs)@, grid.spec_dimensions(), neighbor),
    ensures
        search_inv(*grid, start, final(costs)@, final(came_from)@, final(open_set)@),
        forall|c: [u32; 2]|
            #![trigger cost_at(final(costs)@, grid.spec_dimensions(), c)]
            in_bounds(grid.spec_dimensions(), c) ==> cost_at(final(costs)@, grid.spec_dimensions(), c) == if c
                == neighbor {
                new_cost
            } else {
                cost_at(old(costs)@, grid.spec_dimensions(), c)
            },
        elements_within(old(open_set)@, final(open_set)@),
        open_has(final(open_set)@, neighbor),
        9 * cost_sum(final(costs)@) + final(open_set)@.len() <= 9 * cost_sum(old(costs)@)
            + old(open_set)@.len(),
        open_has_current(final(open_set)@, final(costs)@, grid.spec_dimensions(), *destination, neighbor),
        entries_rated(old(open_set)@, old(costs)@, grid.spec_dimensions()) ==> entries_rated(
            final(open_set)@,
            final(costs)@,
            grid.spec_dimensions(),
        ),
        heap_ordered(old(open_set)@) ==> heap_ordered(final(open_set)@),
{
    let ghost dims = grid.spec_dimensions();
    let dimensions = grid.dimensions();
    proof {
        grid.lemma_dimensions();
        lemma_cell_index_bounds(dims, current);
        lemma_cell_index_bounds(dims, neighbor);
    }
    let neighbor_index = (neighbor[1] * dimensions[0] + neighbor[0]) as usize;
    let ghost old_costs = costs@;
    let ghost old_came_from = came_from@;
    let ghost old_open = open_set@;
    assert(neighbor != start) by {
        if neighbor == start {
            assert(cost_at(old_costs, dims, start) == 0);
        }
    }
    assert(neighbor != current);
    came_from.set(neighbor_index, Some(current));
    costs.set(neighbor_index, new_cost);
    proof {
        lemma_cost_sum_update(old_costs, neighbor_index as int, new_cost);
        lemma_finite_count_update(old_costs, neighbor_index as int, new_cost);
    }
    let estimate = destination.distance(neighbor);
    let rating = new_cost.saturating_add(estimate);
    proof {
        lemma_finite_count_len(old_costs);
        assert(cost_at(old_costs, dims, current) <= DIAGONAL_STEP_COST * finite_count(old_costs));
        assert(old_costs.len() <= 0x1_0000_0000_0000_0000) by (nonlinear_arith)
            requires
                old_costs.len() == dims[0] * dims[1],
                dims[0] <= 0xffff_ffff,
                dims[1] <= 0xffff_ffff,
        ;
        assert(rating == new_cost + estimate);
    }
    heap_push(open_set, RatedNode(neighbor, rating));
    proof {
        let nc = costs@;
        let ncf = came_from@;
        assert forall|c: [u32; 2]| in_bounds(dims, c) implies cost_at(nc, dims, c) == if c == neighbor {
            new_cost
        } else {
            cost_at(old_costs, dims, c)
        } && parent_at(ncf, dims, c) == if c == neighbor {
            Some(current)
        } else {
            parent_at(old_came_from, dims, c)
        } by {
            lemma_index_update(old_costs, dims, neighbor, new_cost, c);
            lemma_index_update(old_came_from, dims, neighbor, Some(current), c);
        }
        let pushed = old_open.push(RatedNode(neighbor, rating));
        assert forall|k: int| 0 <= k < open_set@.len() implies in_bounds(dims, #[trigger] open_set@[k].0)
            && cost_at(nc, dims, open_set@[k].0) != UNKNOWN_COST by {
            assert(pushed.contains(open_set@[k]));
            let j = choose|j: int| 0 <= j < pushed.len() && pushed[j] == open_set@[k];
            if j < old_open.len() {
                assert(old_open[j] == open_set@[k]);
            }
        }
        assert forall|c: [u32; 2]|
            #![trigger cost_at(nc, dims, c)]
            #![trigger parent_at(ncf, dims, c)]
            in_bounds(dims, c) implies {
                &&& (cost_at(nc, dims, c) != UNKNOWN_COST && c != start) ==> parent_at(ncf, dims, c) is Some
                &&& parent_at(ncf, dims, c) matches Some(p) ==> {
                    &&& in_bounds(dims, p)
                    &&& adjacent(p, c)
                    &&& cost_at(nc, dims, p) < cost_at(nc, dims, c)
                    &&& cost_at(nc, dims, p) + step_cost(p, c) <= cost_at(nc, dims, c)
                    &&& cost_at(nc, dims, c) != UNKNOWN_COST
                    &&& is_free(*grid, c)
                    &&& c != start
                }
            } by {
            if c != neighbor {
                assert(cost_at(nc, dims, c) == cost_at(old_costs, dims, c));
                if let Some(p) = parent_at(old_came_from, dims, c) {
                    assert(cost_at(nc, dims, p) == if p == neighbor {
                        new_cost
                    } else {
                        cost_at(old_costs, dims, p)
                    });
                }
            } else {
                assert(cost_at(nc, dims, current) == cost_at(old_costs, dims, current));
            }
        }
        lemma_finite_count_len(old_costs);
        assert(cost_at(old_costs, dims, current) <= DIAGONAL_STEP_COST * finite_count(old_costs));
        assert(finite_count(nc) >= finite_count(old_costs));
        assert(cost_at(old_costs, dims, neighbor) == UNKNOWN_COST ==> finite_count(nc) == finite_count(old_costs) + 1);
        assert forall|c: [u32; 2]|
            #![trigger cost_at(nc, dims, c)]
            in_bounds(dims, c) && cost_at(nc, dims, c) != UNKNOWN_COST implies cost_at(nc, dims, c)
                <= DIAGONAL_STEP_COST * finite_count(nc) by {
            if c != neighbor {
                assert(cost_at(nc, dims, c) == cost_at(old_costs, dims, c));
            }
        }
        assert(cost_at(nc, dims, start) == cost_at(old_costs, dims, start));
        assert(parent_at(ncf, dims, start) == parent_at(old_came_from, dims, start));
        assert(pushed[old_open.len() as int] == RatedNode(neighbor, rating));
        assert(open_set@.contains(RatedNode(neighbor, rating)));
        let kn = choose|kn: int| 0 <= kn < open_set@.len() && open_set@[kn] == RatedNode(neighbor, rating);
        assert(open_set@[kn].0 == neighbor);
        assert(open_set@[kn].1 - cost_at(nc, dims, neighbor) == estimate);
        assert(is_estimate(*destination, neighbor, open_set@[kn].1 - cost_at(nc, dims, neighbor)));
        if entries_rated(old_open, old_costs, dims) {
            assert forall|k: int| 0 <= k < open_set@.len() implies cost_at(nc, dims, (#[trigger] open_set@[k]).0)
                <= open_set@[k].1 by {
                assert(pushed.contains(open_set@[k]));
                let j = choose|j: int| 0 <= j < pushed.len() && pushed[j] == open_set@[k];
                if j < old_open.len() {
                    assert(old_open[j] == open_set@[k]);
                    assert(cost_at(old_costs, dims, old_open[j].0) <= old_open[j].1);
                }
            }
        }
        assert forall|k: int| 0 <= k < old_open.len() implies open_set@.contains(#[trigger] old_open[k]) by {
            assert(pushed[k] == old_open[k]);
        }
    }
}

/// Looks at the neighbour of `current` at offset `[dx, dy]` and records a cheaper way to
/// reach it if this is one.
fn relax_neighbor(
    current: [u32; 2],
    dx: i64,
    dy: i64,
    destination: &Rect,
    grid: &Grid<ObstacleType>,
    start: [u32; 2],
    costs: &mut Vec<u128>,
    came_from: &mut Vec<Option<[u32; 2]>>,
    open_set: &mut Vec<RatedNode>,
)
    requires
        -1 <= dx <= 1,
        -1 <= dy <= 1,
        !(dx == 0 && dy == 0),
        destination.wf(),
        search_inv(*grid, start, old(costs)@, old(came_from)@, old(open_set)@),
        in_bounds(grid.spec_dimensions(), current),
        cost_at(old(costs)@, grid.spec_dimensions(), current) != UNKNOWN_COST,
    ensures
        search_inv(*grid, start, final(costs)@, final(came_from)@, final(open_set)@),
        cost_at(final(costs)@, grid.spec_dimensions(), current) != UNKNOWN_COST,
        9 * cost_sum(final(costs)@) + final(open_set)@.len() <= 9 * cost_sum(old(costs)@)
            + old(open_set)@.len(),
        forall|c: [u32; 2]|
            #![trigger cost_at(final(costs)@, grid.spec_dimensions(), c)]
            in_bounds(grid.spec_dimensions(), c) && cost_at(old(costs)@, grid.spec_dimensions(), c)
                != UNKNOWN_COST ==> cost_at(final(costs)@, grid.spec_dimensions(), c) != UNKNOWN_COST,
        elements_within(old(open_set)@, final(open_set)@),
        forall|c: [u32; 2]|
            #![trigger cost_at(final(costs)@, grid.spec_dimensions(), c)]
            in_bounds(grid.spec_dimensions(), c) && cost_at(final(costs)@, grid.spec_dimensions(), c)
                != cost_at(old(costs)@, grid.spec_dimensions(), c) ==> open_has(final(open_set)@, c),
        0 <= current[0] + dx < grid.spec_dimensions()[0] && 0 <= current[1] + dy < grid.spec_dimensions()[1]
            && is_free(*grid, [(current[0] + dx) as u32, (current[1] + dy) as u32]) ==> cost_at(
            final(costs)@,
            grid.spec_dimensions(),
            [(current[0] + dx) as u32, (current[1] + dy) as u32],
        ) != UNKNOWN_COST,
        forall|c: [u32; 2]|
            #![trigger cost_at(final(costs)@, grid.spec_dimensions(), c)]
            in_bounds(grid.spec_dimensions(), c) ==> cost_at(final(costs)@, grid.spec_dimensions(), c)
                <= cost_at(old(costs)@, grid.spec_dimensions(), c),
        cost_at(final(costs)@, grid.spec_dimensions(), current) == cost_at(old(costs)@, grid.spec_dimensions(), current),
        forall|c: [u32; 2]|
            #![trigger cost_at(final(costs)@, grid.spec_dimensions(), c)]
            in_bounds(grid.spec_dimensions(), c) && cost_at(final(costs)@, grid.spec_dimensions(), c)
                != cost_at(old(costs)@, grid.spec_dimensions(), c) ==> open_has_current(
                final(open_set)@,
                final(costs)@,
                grid.spec_dimensions(),
                *destination,
                c,
            ),
        entries_rated(old(open_set)@, old(costs)@, grid.spec_dimensions()) ==> entries_rated(
            final(open_set)@,
            final(costs)@,
            grid.spec_dimensions(),
        ),
        heap_ordered(old(open_set)@) ==> heap_ordered(final(open_set)@),
        neighbor_within_step(*grid, final(costs)@, current, (dx as int, dy as int)),
{
    let ghost dims = grid.spec_dimensions();
    let dimensions = grid.dimensions();
    let nx = current[0] as i64 + dx;
    let ny = current[1] as i64 + dy;
    proof {
        assert forall|k: int| 0 <= k < open_set@.len() implies open_set@.contains(#[trigger] open_set@[k]) by {
        }
    }
    if nx >= 0 && nx < dimensions[0] as i64 && ny >= 0 && ny < dimensions[1] as i64 {
        let neighbor = [nx as u32, ny as u32];
        proof {
            assert(neighbor =~= [(current[0] + dx) as u32, (current[1] + dy) as u32]);
        }
        let neighbor_free = match grid.get(&neighbor) {
            Some(ObstacleType::Free) => true,
            _ => false,
        };
        if neighbor_free {
            proof {
                grid.lemma_dimensions();
                lemma_cell_index_bounds(dims, current);
                lemma_cell_index_bounds(dims, neighbor);
            }
            let current_index = (current[1] * dimensions[0] + current[0]) as usize;
            let neighbor_index = (neighbor[1] * dimensions[0] + neighbor[0]) as usize;
            let step = neighbor_distance(current, neighbor);
            let maybe_shortest_to_neighbor = costs[current_index].saturating_add(step);
            proof {
                lemma_finite_count_len(costs@);
                assert(cost_at(costs@, dims, current) <= DIAGONAL_STEP_COST * finite_count(costs@));
                assert(finite_count(costs@) <= u32::MAX);
                assert(maybe_shortest_to_neighbor == cost_at(costs@, dims, current) + step);
                assert(adjacent(current, neighbor));
            }
            if maybe_shortest_to_neighbor < costs[neighbor_index] {
                let ghost old_costs = costs@;
                record_cheaper_path(
                    current,
                    neighbor,
                    maybe_shortest_to_neighbor,
                    destination,
                    grid,
                    start,
                    costs,
                    came_from,
                    open_set,
                );
                proof {
                    assert(cost_at(costs@, dims, current) == cost_at(old_costs, dims, current));
                }
            }
        }
    }
}

/// Whether every cell of a path lies in the grid and is walkable.
pub open spec fn all_free(grid: Grid<ObstacleType>, path: Seq<[u32; 2]>) -> bool {
    forall|k: int| 0 <= k < path.len() ==> #[trigger] is_free(grid, path[k])
}

/// The cost of one step between neighbouring cells, in millionths of a cell: a straight step
/// costs one cell, a diagonal one 1.414 cells.
pub open spec fn step_cost(from: [u32; 2], to: [u32; 2]) -> int {
    if from[0] != to[0] && from[1] != to[1] {
        DIAGONAL_STEP_COST as int
    } else {
        STRAIGHT_STEP_COST as int
    }
}

/// The cost of walking `path`, read from its end, from `start`: the sum of its step costs.
pub open spec fn walk_cost(start: [u32; 2], path: Seq<[u32; 2]>) -> int
    decreases path.len(),
{
    if path.len() == 0 {
        0
    } else {
        step_cost(start, path.last()) + walk_cost(path.last(), path.drop_last())
    }
}

/// How much more than another walk to the destination a found path may cost, per step of
/// that walk: the distance estimate that guides the search takes a diagonal step to be
/// √2 cells long, a little longer than the diagonal step cost.
pub const PATH_COST_SLACK_PER_STEP: u128 = 220;

/// The gap between `v` and the nearest number in `[lo, hi]`.
spec fn gap(v: int, lo: int, hi: int) -> int {
    if v < lo {
        lo - v
    } else if v > hi {
        v - hi
    } else {
        0
    }
}

/// An upper bound, in millionths of a cell, on the straight-line distance from `cell` to the
/// rectangle, which no walk to the rectangle undercuts by more than the slack per step.
spec fn distance_bound(rect: Rect, cell: [u32; 2]) -> int {
    let x = gap(cell[0] as int, rect.left as int, rect.right as int);
    let y = gap(cell[1] as int, rect.top as int, rect.bottom as int);
    if x >= y {
        1_000_000 * x + 414_220 * y
    } else {
        414_220 * x + 1_000_000 * y
    }
}

/// One step changes the distance bound by at most that step's cost plus the slack.
proof fn lemma_distance_bound_step(rect: Rect, a: [u32; 2], b: [u32; 2])
    requires
        rect.wf(),
        adjacent(a, b),
    ensures
        distance_bound(rect, a) <= distance_bound(rect, b) + step_cost(a, b)
            + PATH_COST_SLACK_PER_STEP,
{
    let xa = gap(a[0] as int, rect.left as int, rect.right as int);
    let ya = gap(a[1] as int, rect.top as int, rect.bottom as int);
    let xb = gap(b[0] as int, rect.left as int, rect.right as int);
    let yb = gap(b[1] as int, rect.top as int, rect.bottom as int);
    assert(xa <= xb + 1 && xb <= xa + 1);
    assert(ya <= yb + 1 && yb <= ya + 1);
    assert(a[0] == b[0] ==> xa == xb);
    assert(a[1] == b[1] ==> ya == yb);
}

/// No walk from `cell` into the rectangle costs less than the distance bound, less the
/// slack for each of its steps.
proof fn lemma_distance_bound_walk(rect: Rect, cell: [u32; 2], path: Seq<[u32; 2]>)
    requires
        rect.wf(),
        is_walk_from(cell, path),
        path.len() == 0 ==> rect.spec_contains(cell),
        path.len() > 0 ==> rect.spec_contains(path[0]),
    ensures
        distance_bound(rect, cell) <= walk_cost(cell, path) + PATH_COST_SLACK_PER_STEP * path.len(),
    decreases path.len(),
{
    if path.len() == 0 {
        assert(distance_bound(rect, cell) == 0);
    } else {
        let next = path.last();
        let rest = path.drop_last();
        assert(is_walk_from(next, rest)) by {
            assert forall|k: int| 0 <= k < rest.len() - 1 implies adjacent(rest[k + 1], #[trigger] rest[k]) by {
                assert(adjacent(path[k + 1], path[k]));
            }
            if rest.len() > 0 {
                assert(adjacent(path[rest.len() as int], path[rest.len() - 1]));
            }
        }
        if rest.len() > 0 {
            assert(rest[0] == path[0]);
        }
        lemma_distance_bound_walk(rect, next, rest);
        lemma_distance_bound_step(rect, cell, next);
    }
}

/// The distance estimate, the integer square root of the scaled squared distance, is at most
/// the distance bound.
proof fn lemma_estimate_within_bound(rect: Rect, cell: [u32; 2], estimate: int)
    requires
        rect.wf(),
        is_isqrt(rect.spec_squared_distance(cell) * DISTANCE_SCALE_SQUARED, estimate),
    ensures
        estimate <= distance_bound(rect, cell),
{
    let dx = cell[0] - clamp(cell[0] as int, rect.left as int, rect.right as int);
    let dy = cell[1] - clamp(cell[1] as int, rect.top as int, rect.bottom as int);
    let x = gap(cell[0] as int, rect.left as int, rect.right as int);
    let y = gap(cell[1] as int, rect.top as int, rect.bottom as int);
    assert(x == dx || x == -dx);
    assert(y == dy || y == -dy);
    let hi = if x >= y { x } else { y };
    let lo = if x >= y { y } else { x };
    let bound = 1_000_000 * hi + 414_220 * lo;
    assert(bound == distance_bound(rect, cell));
    assert((dx * dx + dy * dy) * 1_000_000_000_000 <= bound * bound) by (nonlinear_arith)
        requires
            0 <= lo <= hi,
            (dx == hi || dx == -hi) && (dy == lo || dy == -lo) || (dx == lo || dx == -lo) && (dy == hi
                || dy == -hi),
            bound == 1_000_000 * hi + 414_220 * lo,
    ;
    assert(estimate <= bound) by (nonlinear_arith)
        requires
            0 <= estimate,
            0 <= bound,
            estimate * estimate <= bound * bound,
    ;
}

/// Following predecessors that each cost at least one step less than the cell they lead to,
/// a walk costs no more than the cost known for where it ends, less that of where it starts.
proof fn lemma_chain_cost(costs: Seq<u128>, dimensions: [u32; 2], from: [u32; 2], path: Seq<[u32; 2]>)
    requires
        path.len() > 0 ==> cost_at(costs, dimensions, from) + step_cost(from, path.last()) <= cost_at(
            costs,
            dimensions,
            path.last(),
        ),
        forall|k: int|
            0 <= k < path.len() - 1 ==> cost_at(costs, dimensions, path[k + 1]) + step_cost(
                path[k + 1],
                #[trigger] path[k],
            ) <= cost_at(costs, dimensions, path[k]),
    ensures
        path.len() > 0 ==> cost_at(costs, dimensions, from) + walk_cost(from, path) <= cost_at(
            costs,
            dimensions,
            path[0],
        ),
    decreases path.len(),
{
    if path.len() > 0 {
        let next = path.last();
        let rest = path.drop_last();
        assert forall|k: int| 0 <= k < rest.len() - 1 implies cost_at(costs, dimensions, rest[k + 1])
            + step_cost(rest[k + 1], #[trigger] rest[k]) <= cost_at(costs, dimensions, rest[k]) by {
            assert(cost_at(costs, dimensions, path[k + 1]) + step_cost(path[k + 1], path[k]) <= cost_at(
                costs,
                dimensions,
                path[k],
            ));
        }
        if rest.len() > 0 {
            assert(cost_at(costs, dimensions, path[rest.len() as int]) + step_cost(
                path[rest.len() as int],
                path[rest.len() - 1],
            ) <= cost_at(costs, dimensions, path[rest.len() - 1]));
            assert(rest[0] == path[0]);
        }
        lemma_chain_cost(costs, dimensions, next, rest);
        assert(walk_cost(from, path) == step_cost(from, next) + walk_cost(next, rest));
        if rest.len() == 0 {
            assert(walk_cost(next, rest) == 0);
            assert(next == path[0]);
        }
    }
}

/// A walk that follows recorded predecessors back to the start costs no more than the cost
/// known for the cell it ends at.
proof fn lemma_predecessor_walk_cost(
    grid: Grid<ObstacleType>,
    start: [u32; 2],
    costs: Seq<u128>,
    came_from: Seq<Option<[u32; 2]>>,
    open_set: Seq<RatedNode>,
    full: Seq<[u32; 2]>,
)
    requires
        search_inv(grid, start, costs, came_from, open_set),
        full.len() > 0,
        full.last() == start,
        forall|k: int| 0 <= k < full.len() - 1 ==> parent_at(came_from, grid.spec_dimensions(), #[trigger] full[k]) == Some(full[k + 1]),
        forall|k: int| 0 <= k < full.len() ==> in_bounds(grid.spec_dimensions(), #[trigger] full[k]),
    ensures
        walk_cost(start, full.drop_last()) <= cost_at(costs, grid.spec_dimensions(), full[0]),
{
    let dims = grid.spec_dimensions();
    let path = full.drop_last();
    if path.len() > 0 {
        assert(parent_at(came_from, dims, full[full.len() - 2]) == Some(start));
        assert(in_bounds(dims, full[full.len() - 2]));
        assert(path.last() == full[full.len() - 2]);
        assert(cost_at(costs, dims, start) + step_cost(start, path.last()) <= cost_at(costs, dims, path.last()));
        assert forall|k: int| 0 <= k < path.len() - 1 implies cost_at(costs, dims, path[k + 1])
            + step_cost(path[k + 1], #[trigger] path[k]) <= cost_at(costs, dims, path[k]) by {
            assert(parent_at(came_from, dims, full[k]) == Some(full[k + 1]));
            assert(in_bounds(dims, full[k]));
        }
        lemma_chain_cost(costs, dims, start, path);
    } else {
        assert(walk_cost(start, path) == 0);
    }
}

/// Follows the recorded best predecessors from `current` back to the start; returns the
/// cells walked through, `current` first and the start left out.
fn reconstruct_path(
    came_from: &Vec<Option<[u32; 2]>>,
    current: [u32; 2],
    width: u32,
    Ghost(grid): Ghost<Grid<ObstacleType>>,
    Ghost(start): Ghost<[u32; 2]>,
    Ghost(costs): Ghost<Seq<u128>>,
    Ghost(open_set): Ghost<Seq<RatedNode>>,
) -> (path: Vec<[u32; 2]>)
    requires
        search_inv(grid, start, costs, came_from@, open_set),
        width == grid.spec_dimensions()[0],
        in_bounds(grid.spec_dimensions(), current),
        cost_at(costs, grid.spec_dimensions(), current) != UNKNOWN_COST,
    ensures
        is_walk_from(start, path@),
        all_free(grid, path@),
        path@.len() == 0 <==> current == start,
        path@.len() > 0 ==> path@[0] == current,
        forall|k: int| 0 <= k < path@.len() - 1 ==> parent_at(came_from@, grid.spec_dimensions(), #[trigger] path@[k]) == Some(path@[k + 1]),
        path@.len() > 0 ==> parent_at(came_from@, grid.spec_dimensions(), path@.last()) == Some(start),
        forall|i: int, j: int| 0 <= i < j < path@.len() ==> path@[i] != path@[j],
        forall|k: int| 0 <= k < path@.len() ==> path@[k] != start,
        walk_cost(start, path@) <= cost_at(costs, grid.spec_dimensions(), current),
{
    let ghost dims = grid.spec_dimensions();
    proof {
        grid.lemma_dimensions();
    }
    let mut total_path: Vec<[u32; 2]> = Vec::new();
    total_path.push(current);
    let mut cell = current;
    loop
        invariant_except_break
            search_inv(grid, start, costs, came_from@, open_set),
            dims == grid.spec_dimensions(),
            width == dims[0],
            in_bounds(dims, cell),
            cost_at(costs, dims, cell) != UNKNOWN_COST,
            total_path@.len() > 0,
            total_path@[0] == current,
            total_path@.last() == cell,
            forall|k: int| 0 <= k < total_path@.len() - 1 ==> adjacent(total_path@[k + 1], #[trigger] total_path@[k]),
            forall|k: int| 0 <= k < total_path@.len() - 1 ==> #[trigger] is_free(grid, total_path@[k]),
            cell != start ==> is_free(grid, cell),
            forall|k: int| 0 <= k < total_path@.len() - 1 ==> parent_at(came_from@, dims, #[trigger] total_path@[k]) == Some(total_path@[k + 1]),
            forall|i: int, j: int| 0 <= i < j < total_path@.len() ==> cost_at(costs, dims, total_path@[i]) > cost_at(costs, dims, total_path@[j]),
            current == start ==> total_path@.len() == 1,
            forall|k: int| 0 <= k < total_path@.len() ==> in_bounds(dims, #[trigger] total_path@[k]),
        ensures
            total_path@.len() > 0,
            total_path@[0] == current,
            total_path@.last() == start,
            forall|k: int| 0 <= k < total_path@.len() - 1 ==> adjacent(total_path@[k + 1], #[trigger] total_path@[k]),
            forall|k: int| 0 <= k < total_path@.len() - 1 ==> #[trigger] is_free(grid, total_path@[k]),
            forall|k: int| 0 <= k < total_path@.len() - 1 ==> parent_at(came_from@, dims, #[trigger] total_path@[k]) == Some(total_path@[k + 1]),
            forall|i: int, j: int| 0 <= i < j < total_path@.len() ==> cost_at(costs, dims, total_path@[i]) > cost_at(costs, dims, total_path@[j]),
            current == start ==> total_path@.len() == 1,
            forall|k: int| 0 <= k < total_path@.len() ==> in_bounds(dims, #[trigger] total_path@[k]),
        decreases cost_at(costs, dims, cell),
    {
        proof {
            grid.lemma_dimensions();
            lemma_cell_index_bounds(dims, cell);
        }
        let index = (cell[1] * width + cell[0]) as usize;
        match came_from[index] {
            Some(parent) => {
                assert(parent_at(came_from@, dims, cell) == Some(parent));
                let ghost before = total_path@;
                cell = parent;
                total_path.push(cell);
                proof {
                    assert(cell != start || current != start);
                    assert forall|k: int| 0 <= k < total_path@.len() - 1 implies parent_at(came_from@, dims, #[trigger] total_path@[k]) == Some(total_path@[k + 1]) by {
                        if k < before.len() - 1 {
                            assert(total_path@[k] == before[k]);
                            assert(total_path@[k + 1] == before[k + 1]);
                        }
                    }
                }
            },
            None => {
                assert(parent_at(came_from@, dims, cell) is None);
                break;
            },
        }
    }
    let ghost full = total_path@;
    total_path.pop();
    proof {
        assert(total_path@ =~= full.drop_last());
        assert forall|i: int, j: int| 0 <= i < j < total_path@.len() implies total_path@[i] != total_path@[j] by {
            assert(cost_at(costs, dims, full[i]) > cost_at(costs, dims, full[j]));
        }
        assert forall|k: int| 0 <= k < total_path@.len() implies total_path@[k] != start by {
            assert(cost_at(costs, dims, full[k]) > cost_at(costs, dims, full[full.len() - 1]));
        }
        if total_path@.len() > 0 {
            assert(parent_at(came_from@, dims, full[full.len() - 2]) == Some(full[full.len() - 1]));
        }
        lemma_predecessor_walk_cost(grid, start, costs, came_from@, open_set, full);
    }
    total_path
}

/// Searches for a walk of free cells from `start` to a cell inside `destination`, exploring
/// the cells with the lowest cost so far plus distance to the destination first. The walk it
/// finds costs no more than any other walk into the destination, up to the slack per step.
#[verifier::rlimit(100)]
#[verifier::spinoff_prover]
fn a_star(start: [u32; 2], destination: Rect, grid: &Grid<ObstacleType>) -> (path: Option<
    Vec<[u32; 2]>,
>)
    requires
        grid.wf(),
        in_bounds(grid.spec_dimensions(), start),
        destination.wf(),
    ensures
        match path {
            Some(path) => {
                &&& is_walk_from(start, path@)
                &&& all_free(*grid, path@)
                &&& path@.len() == 0 ==> destination.spec_contains(start)
                &&& path@.len() > 0 ==> destination.spec_contains(path@[0])
                &&& forall|i: int, j: int| 0 <= i < j < path@.len() ==> path@[i] != path@[j]
                &&& forall|k: int| 0 <= k < path@.len() ==> path@[k] != start
                &&& forall|walk: Seq<[u32; 2]>|
                    #![trigger walk_cost(start, walk)]
                    is_walk_from(start, walk) && all_free(*grid, walk) && (walk.len() == 0
                        ==> destination.spec_contains(start)) && (walk.len() > 0 ==> destination.spec_contains(walk[0]))
                        ==> walk_cost(start, path@) <= walk_cost(start, walk) + PATH_COST_SLACK_PER_STEP * walk.len()
            },
            None => {
                &&& !destination.spec_contains(start)
                &&& forall|walk: Seq<[u32; 2]>|
                    is_walk_from(start, walk) && all_free(*grid, walk) && walk.len() > 0
                        ==> !destination.spec_contains(#[trigger] walk[0])
            },
        },
        destination.spec_contains(start) ==> (path matches Some(p) && p@.len() == 0),
{
    let dimensions = grid.dimensions();
    let ghost dims = grid.spec_dimensions();
    proof {
        grid.lemma_dimensions();
        lemma_cell_index_bounds(dims, start);
    }
    let cell_count: u32 = dimensions[0] * dimensions[1];
    let mut costs: Vec<u128> = Vec::new();
    let mut came_from: Vec<Option<[u32; 2]>> = Vec::new();
    let mut i: u32 = 0;
    while i < cell_count
        invariant
            i <= cell_count,
            costs@.len() == i,
            came_from@.len() == i,
            forall|j: int| 0 <= j < i ==> costs@[j] == UNKNOWN_COST,
            forall|j: int| 0 <= j < i ==> came_from@[j] is None,
        decreases cell_count - i,
    {
        costs.push(UNKNOWN_COST);
        came_from.push(None);
        i = i + 1;
    }
    let start_index = (start[1] * dimensions[0] + start[0]) as usize;
    costs.set(start_index, 0);
    let mut open_set: Vec<RatedNode> = Vec::new();
    let start_rating = destination.distance(start);
    heap_push(&mut open_set, RatedNode(start, start_rating));
    proof {
        let c0 = costs@;
        assert forall|c: [u32; 2]| in_bounds(dims, c) implies cost_at(c0, dims, c) == if c == start {
            0
        } else {
            UNKNOWN_COST
        } && parent_at(came_from@, dims, c) is None by {
            lemma_cell_index_bounds(dims, c);
            if c != start {
                lemma_cell_index_injective(dims, c, start);
            }
        }
        assert forall|k: int| 0 <= k < open_set@.len() implies in_bounds(dims, #[trigger] open_set@[k].0)
            && cost_at(c0, dims, open_set@[k].0) != UNKNOWN_COST by {
            assert(Seq::<RatedNode>::empty().push(RatedNode(start, start_rating)).contains(open_set@[k]));
        }
    }
    proof {
        assert(open_set@.len() == 1);
        assert forall|c: [u32; 2]|
            #![trigger cost_at(costs@, dims, c)]
            in_bounds(dims, c) && cost_at(costs@, dims, c) != UNKNOWN_COST implies open_has(open_set@, c)
                || explored(*grid, costs@, destination, c) by {
            assert(Seq::<RatedNode>::empty().push(RatedNode(start, start_rating)).contains(open_set@[0]));
            assert(open_set@[0].0 == start);
        }
        assert(heap_ordered(Seq::<RatedNode>::empty()));
        assert(Seq::<RatedNode>::empty().push(RatedNode(start, start_rating)).contains(open_set@[0]));
        assert(open_set@[0] == RatedNode(start, start_rating));
        assert(entries_rated(open_set@, costs@, dims));
        assert forall|c: [u32; 2]|
            #![trigger cost_at(costs@, dims, c)]
            in_bounds(dims, c) && cost_at(costs@, dims, c) != UNKNOWN_COST implies open_has_current(
                open_set@,
                costs@,
                dims,
                destination,
                c,
            ) || settled(*grid, costs@, destination, c) by {
            assert(c == start);
            assert(open_set@[0].0 == start);
            assert(is_estimate(destination, start, open_set@[0].1 - cost_at(costs@, dims, start)));
        }
    }
    while open_set.len() > 0
        invariant
            destination.wf(),
            dims == grid.spec_dimensions(),
            dimensions == dims,
            search_inv(*grid, start, costs@, came_from@, open_set@),
            search_closed(*grid, costs@, open_set@, destination),
            search_ordered(*grid, costs@, open_set@, destination),
            destination.spec_contains(start) ==> open_set@.len() == 1 && open_set@[0].0 == start,
        decreases 9 * cost_sum(costs@) + open_set@.len(),
    {
        let ghost measure_before = 9 * cost_sum(costs@) + open_set@.len();
        let ghost open_before = open_set@;
        let ghost costs_before = costs@;
        let node = heap_pop(&mut open_set);
        let current = node.0;
        let ghost open_popped = open_set@;
        proof {
            let j = choose|j: int| 0 <= j < open_before.len() && open_before[j] == node;
            assert(in_bounds(dims, open_before[j].0));
            assert forall|k: int| 0 <= k < open_set@.len() implies in_bounds(dims, #[trigger] open_set@[k].0)
                && cost_at(costs@, dims, open_set@[k].0) != UNKNOWN_COST by {
                assert(open_before.contains(open_set@[k]));
                let m = choose|m: int| 0 <= m < open_before.len() && open_before[m] == open_set@[k];
            }
            assert forall|c: [u32; 2]| c != current && open_has(open_before, c) implies open_has(open_set@, c) by {
                let k = choose|k: int| 0 <= k < open_before.len() && #[trigger] open_before[k].0 == c;
                assert(open_before[k] != node);
                assert(open_set@.contains(open_before[k]));
                let m = choose|m: int| 0 <= m < open_set@.len() && open_set@[m] == open_before[k];
                assert(open_set@[m].0 == c);
            }
        }
        proof {
            lemma_order_after_pop(*grid, costs@, open_before, open_popped, node, destination);
        }
        if destination.contains(current) {
            let path = reconstruct_path(
                &came_from,
                current,
                dimensions[0],
                Ghost(*grid),
                Ghost(start),
                Ghost(costs@),
                Ghost(open_set@),
            );
            proof {
                lemma_popped_cost_cheapest(*grid, start, costs@, came_from@, open_before, destination, node);
            }
            return Some(path);
        }
        let mut direction: usize = 0;
        proof {
            assert forall|k: int| 0 <= k < open_set@.len() implies open_set@.contains(#[trigger] open_set@[k]) by {
            }
        }
        while direction < 8
            invariant
                destination.wf(),
                dims == grid.spec_dimensions(),
                dimensions == dims,
                direction <= 8,
                in_bounds(dims, current),
                !destination.spec_contains(current),
                search_inv(*grid, start, costs@, came_from@, open_set@),
                cost_at(costs@, dims, current) != UNKNOWN_COST,
                forall|c: [u32; 2]|
                    #![trigger cost_at(costs@, dims, c)]
                    in_bounds(dims, c) && cost_at(costs_before, dims, c) != UNKNOWN_COST ==> cost_at(
                        costs@,
                        dims,
                        c,
                    ) != UNKNOWN_COST,
                elements_within(open_popped, open_set@),
                forall|c: [u32; 2]|
                    #![trigger cost_at(costs@, dims, c)]
                    in_bounds(dims, c) && cost_at(costs@, dims, c) != cost_at(costs_before, dims, c)
                        ==> open_has(open_set@, c),
                forall|j: int|
                    0 <= j < direction ==> #[trigger] neighbor_reached(*grid, costs@, current, neighbor_offset(j)),
                9 * cost_sum(costs@) + open_set@.len() <= 9 * cost_sum(costs_before) + open_popped.len(),
                heap_ordered(open_set@),
                entries_rated(open_set@, costs@, dims),
                forall|c: [u32; 2]|
                    #![trigger cost_at(costs@, dims, c)]
                    in_bounds(dims, c) && c != current && cost_at(costs@, dims, c) != UNKNOWN_COST
                        ==> open_has_current(open_set@, costs@, dims, destination, c) || settled(
                        *grid,
                        costs@,
                        destination,
                        c,
                    ),
                cost_at(costs@, dims, current) == cost_at(costs_before, dims, current),
                forall|j: int|
                    0 <= j < direction ==> #[trigger] neighbor_within_step(*grid, costs@, current, neighbor_offset(j)),
            decreases 8 - direction,
        {
            let (dx, dy) = offset_of(direction);
            let ghost costs_step = costs@;
            let ghost open_step = open_set@;
            relax_neighbor(current, dx, dy, &destination, grid, start, &mut costs, &mut came_from, &mut open_set);
            proof {
                assert forall|c: [u32; 2]|
                    #![trigger cost_at(costs@, dims, c)]
                    in_bounds(dims, c) && cost_at(costs@, dims, c) != cost_at(costs_before, dims, c)
                        implies open_has(open_set@, c) by {
                    if cost_at(costs@, dims, c) == cost_at(costs_step, dims, c) {
                        assert(open_has(open_step, c));
                        let k = choose|k: int| 0 <= k < open_step.len() && #[trigger] open_step[k].0 == c;
                        assert(open_set@.contains(open_step[k]));
                        let m = choose|m: int| 0 <= m < open_set@.len() && open_set@[m] == open_step[k];
                        assert(open_set@[m].0 == c);
                    }
                }
                assert forall|k: int| 0 <= k < open_popped.len() implies open_set@.contains(#[trigger] open_popped[k]) by {
                    assert(open_step.contains(open_popped[k]));
                    let m = choose|m: int| 0 <= m < open_step.len() && open_step[m] == open_popped[k];
                    assert(open_set@.contains(open_step[m]));
                }
                assert forall|j: int|
                    0 <= j < direction + 1 implies #[trigger] neighbor_reached(*grid, costs@, current, neighbor_offset(j)) by {
                    if j < direction {
                        assert(neighbor_reached(*grid, costs_step, current, neighbor_offset(j)));
                        assert(neighbor_within_step(*grid, costs_step, current, neighbor_offset(j)));
                        let n = [(current[0] + neighbor_offset(j).0) as u32, (current[1] + neighbor_offset(j).1) as u32];
                        if 0 <= current[0] + neighbor_offset(j).0 < dims[0] && 0 <= current[1] + neighbor_offset(j).1 < dims[1] && is_free(*grid, n) {
                            assert(cost_at(costs_step, dims, n) != UNKNOWN_COST);
                            assert(cost_at(costs@, dims, n) != UNKNOWN_COST);
                        }
                    }
                }
                lemma_cost_sum_nonnegative(costs@);
                lemma_relax_keeps_order(*grid, destination, current, costs_step, open_step, costs@, open_set@);
                assert forall|j: int|
                    0 <= j < direction + 1 implies #[trigger] neighbor_within_step(*grid, costs@, current, neighbor_offset(j)) by {
                    if j < direction {
                        assert(neighbor_within_step(*grid, costs_step, current, neighbor_offset(j)));
                        let n = [(current[0] + neighbor_offset(j).0) as u32, (current[1] + neighbor_offset(j).1) as u32];
                        if 0 <= current[0] + neighbor_offset(j).0 < dims[0] && 0 <= current[1] + neighbor_offset(j).1 < dims[1] {
                            assert(cost_at(costs@, dims, n) <= cost_at(costs_step, dims, n));
                        }
                    } else {
                        assert(neighbor_offset(j) == (dx as int, dy as int));
                    }
                }
            }
            direction = direction + 1;
        }
        proof {
            lemma_cost_sum_nonnegative(costs@);
            lemma_explored_after_expansion(*grid, costs_before, costs@, open_before, open_popped, open_set@, destination, current);
            lemma_settled_after_expansion(*grid, costs@, destination, current);
        }
    }
    proof {
        lemma_search_exhausted(*grid, costs@, destination, start);
    }
    None
}

/// The offset of the `j`-th neighbour looked at: by column from the left, each from the top.
spec fn neighbor_offset(j: int) -> (int, int) {
    if j == 0 {
        (-1, -1)
    } else if j == 1 {
        (-1, 0)
    } else if j == 2 {
        (-1, 1)
    } else if j == 3 {
        (0, -1)
    } else if j == 4 {
        (0, 1)
    } else if j == 5 {
        (1, -1)
    } else if j == 6 {
        (1, 0)
    } else {
        (1, 1)
    }
}

/// The offset of the `j`-th neighbour looked at.
fn offset_of(j: usize) -> (offset: (i64, i64))
    requires
        j < 8,
    ensures
        offset.0 == neighbor_offset(j as int).0,
        offset.1 == neighbor_offset(j as int).1,
        -1 <= offset.0 <= 1,
        -1 <= offset.1 <= 1,
        !(offset.0 == 0 && offset.1 == 0),
{
    if j == 0 {
        (-1, -1)
    } else if j == 1 {
        (-1, 0)
    } else if j == 2 {
        (-1, 1)
    } else if j == 3 {
        (0, -1)
    } else if j == 4 {
        (0, 1)
    } else if j == 5 {
        (1, -1)
    } else if j == 6 {
        (1, 0)
    } else {
        (1, 1)
    }
}

/// Whether the neighbour of `current` at `offset`, when it is a walkable cell of the grid,
/// has been reached.
spec fn neighbor_reached(grid: Grid<ObstacleType>, costs: Seq<u128>, current: [u32; 2], offset: (int, int)) -> bool {
    let n = [(current[0] + offset.0) as u32, (current[1] + offset.1) as u32];
    (0 <= current[0] + offset.0 < grid.spec_dimensions()[0] && 0 <= current[1] + offset.1
        < grid.spec_dimensions()[1] && is_free(grid, n)) ==> cost_at(costs, grid.spec_dimensions(), n)
        != UNKNOWN_COST
}

/// Whether the neighbour of `current` at `offset`, when it is a walkable cell of the grid, is
/// known for at most the cost of `current` plus the step to it.
spec fn neighbor_within_step(grid: Grid<ObstacleType>, costs: Seq<u128>, current: [u32; 2], offset: (int, int)) -> bool {
    let n = [(current[0] + offset.0) as u32, (current[1] + offset.1) as u32];
    (0 <= current[0] + offset.0 < grid.spec_dimensions()[0] && 0 <= current[1] + offset.1
        < grid.spec_dimensions()[1] && is_free(grid, n)) ==> cost_at(costs, grid.spec_dimensions(), n)
        <= cost_at(costs, grid.spec_dimensions(), current) + step_cost(current, n)
}

/// Whether a reached cell has been explored: it is not in the destination, and each of its
/// walkable neighbours in the grid has been reached.
spec fn explored(grid: Grid<ObstacleType>, costs: Seq<u128>, destination: Rect, c: [u32; 2]) -> bool {
    &&& !destination.spec_contains(c)
    &&& forall|n: [u32; 2]|
        #![trigger adjacent(c, n)]
        in_bounds(grid.spec_dimensions(), n) && adjacent(c, n) && is_free(grid, n) ==> cost_at(
            costs,
            grid.spec_dimensions(),
            n,
        ) != UNKNOWN_COST
}

/// Every reached cell is waiting in the open set or has been explored.
spec fn search_closed(grid: Grid<ObstacleType>, costs: Seq<u128>, open_set: Seq<RatedNode>, destination: Rect) -> bool {
    forall|c: [u32; 2]|
        #![trigger cost_at(costs, grid.spec_dimensions(), c)]
        in_bounds(grid.spec_dimensions(), c) && cost_at(costs, grid.spec_dimensions(), c) != UNKNOWN_COST
            ==> open_has(open_set, c) || explored(grid, costs, destination, c)
}

/// A cell next to `c` lies at one of the eight offsets.
proof fn lemma_adjacent_offset(c: [u32; 2], n: [u32; 2]) -> (j: int)
    requires
        adjacent(c, n),
    ensures
        0 <= j < 8,
        n[0] == c[0] + neighbor_offset(j).0,
        n[1] == c[1] + neighbor_offset(j).1,
{
    let dx = n[0] - c[0];
    let dy = n[1] - c[1];
    if dx == -1 && dy == -1 {
        0
    } else if dx == -1 && dy == 0 {
        1
    } else if dx == -1 && dy == 1 {
        2
    } else if dx == 0 && dy == -1 {
        3
    } else if dx == 0 && dy == 1 {
        4
    } else if dx == 1 && dy == -1 {
        5
    } else if dx == 1 && dy == 0 {
        6
    } else {
        7
    }
}

/// Once the cell popped from the open set has had all its neighbours looked at, every
/// reached cell is again waiting in the open set or explored.
proof fn lemma_explored_after_expansion(
    grid: Grid<ObstacleType>,
    costs_before: Seq<u128>,
    costs: Seq<u128>,
    open_before: Seq<RatedNode>,
    open_popped: Seq<RatedNode>,
    open_set: Seq<RatedNode>,
    destination: Rect,
    current: [u32; 2],
)
    requires
        search_closed(grid, costs_before, open_before, destination),
        in_bounds(grid.spec_dimensions(), current),
        !destination.spec_contains(current),
        forall|c: [u32; 2]| c != current && open_has(open_before, c) ==> open_has(open_popped, c),
        elements_within(open_popped, open_set),
        forall|c: [u32; 2]|
            #![trigger cost_at(costs, grid.spec_dimensions(), c)]
            in_bounds(grid.spec_dimensions(), c) && cost_at(costs_before, grid.spec_dimensions(), c)
                != UNKNOWN_COST ==> cost_at(costs, grid.spec_dimensions(), c) != UNKNOWN_COST,
        forall|c: [u32; 2]|
            #![trigger cost_at(costs, grid.spec_dimensions(), c)]
            in_bounds(grid.spec_dimensions(), c) && cost_at(costs, grid.spec_dimensions(), c) != cost_at(
                costs_before,
                grid.spec_dimensions(),
                c,
            ) ==> open_has(open_set, c),
        forall|j: int| 0 <= j < 8 ==> #[trigger] neighbor_reached(grid, costs, current, neighbor_offset(j)),
    ensures
        search_closed(grid, costs, open_set, destination),
{
    let dims = grid.spec_dimensions();
    assert forall|c: [u32; 2]|
        #![trigger cost_at(costs, dims, c)]
        in_bounds(dims, c) && cost_at(costs, dims, c) != UNKNOWN_COST implies open_has(open_set, c)
            || explored(grid, costs, destination, c) by {
        if cost_at(costs, dims, c) == cost_at(costs_before, dims, c) {
            assert(cost_at(costs_before, dims, c) != UNKNOWN_COST);
            if c == current {
                assert forall|n: [u32; 2]|
                    #![trigger adjacent(c, n)]
                    in_bounds(dims, n) && adjacent(c, n) && is_free(grid, n) implies cost_at(costs, dims, n)
                        != UNKNOWN_COST by {
                    let j = lemma_adjacent_offset(c, n);
                    assert(neighbor_reached(grid, costs, current, neighbor_offset(j)));
                    assert(n =~= [(current[0] + neighbor_offset(j).0) as u32, (current[1] + neighbor_offset(j).1) as u32]);
                }
            } else if open_has(open_before, c) {
                assert(open_has(open_popped, c));
                let k = choose|k: int| 0 <= k < open_popped.len() && #[trigger] open_popped[k].0 == c;
                assert(open_set.contains(open_popped[k]));
                let m = choose|m: int| 0 <= m < open_set.len() && open_set[m] == open_popped[k];
                assert(open_set[m].0 == c);
            } else {
                assert(explored(grid, costs_before, destination, c));
                assert forall|n: [u32; 2]|
                    #![trigger adjacent(c, n)]
                    in_bounds(dims, n) && adjacent(c, n) && is_free(grid, n) implies cost_at(costs, dims, n)
                        != UNKNOWN_COST by {
                    assert(cost_at(costs_before, dims, n) != UNKNOWN_COST);
                }
            }
        }
    }
}

/// Looking at one neighbour keeps every reached cell other than the one being expanded
/// settled or waiting in the open set rated by its current cost.
proof fn lemma_relax_keeps_order(
    grid: Grid<ObstacleType>,
    destination: Rect,
    current: [u32; 2],
    costs0: Seq<u128>,
    open0: Seq<RatedNode>,
    costs1: Seq<u128>,
    open1: Seq<RatedNode>,
)
    requires
        forall|c: [u32; 2]|
            #![trigger cost_at(costs0, grid.spec_dimensions(), c)]
            in_bounds(grid.spec_dimensions(), c) && c != current && cost_at(costs0, grid.spec_dimensions(), c)
                != UNKNOWN_COST ==> open_has_current(open0, costs0, grid.spec_dimensions(), destination, c)
                || settled(grid, costs0, destination, c),
        forall|c: [u32; 2]|
            #![trigger cost_at(costs1, grid.spec_dimensions(), c)]
            in_bounds(grid.spec_dimensions(), c) ==> cost_at(costs1, grid.spec_dimensions(), c) <= cost_at(
                costs0,
                grid.spec_dimensions(),
                c,
            ),
        forall|c: [u32; 2]|
            #![trigger cost_at(costs1, grid.spec_dimensions(), c)]
            in_bounds(grid.spec_dimensions(), c) && cost_at(costs1, grid.spec_dimensions(), c) != cost_at(
                costs0,
                grid.spec_dimensions(),
                c,
            ) ==> open_has_current(open1, costs1, grid.spec_dimensions(), destination, c),
        elements_within(open0, open1),
    ensures
        forall|c: [u32; 2]|
            #![trigger cost_at(costs1, grid.spec_dimensions(), c)]
            in_bounds(grid.spec_dimensions(), c) && c != current && cost_at(costs1, grid.spec_dimensions(), c)
                != UNKNOWN_COST ==> open_has_current(open1, costs1, grid.spec_dimensions(), destination, c)
                || settled(grid, costs1, destination, c),
{
    let dims = grid.spec_dimensions();
    assert forall|c: [u32; 2]|
        #![trigger cost_at(costs1, dims, c)]
        in_bounds(dims, c) && c != current && cost_at(costs1, dims, c) != UNKNOWN_COST implies open_has_current(
            open1,
            costs1,
            dims,
            destination,
            c,
        ) || settled(grid, costs1, destination, c) by {
        if cost_at(costs1, dims, c) == cost_at(costs0, dims, c) {
            assert(cost_at(costs0, dims, c) != UNKNOWN_COST);
            if open_has_current(open0, costs0, dims, destination, c) {
                let k = choose|k: int|
                    0 <= k < open0.len() && #[trigger] open0[k].0 == c && is_estimate(
                        destination,
                        c,
                        open0[k].1 - cost_at(costs0, dims, c),
                    );
                assert(open1.contains(open0[k]));
                let m = choose|m: int| 0 <= m < open1.len() && open1[m] == open0[k];
                assert(open1[m].0 == c);
            } else {
                assert(settled(grid, costs0, destination, c));
                assert forall|n: [u32; 2]|
                    #![trigger adjacent(c, n)]
                    in_bounds(dims, n) && adjacent(c, n) && is_free(grid, n) implies cost_at(costs1, dims, n)
                        <= cost_at(costs1, dims, c) + step_cost(c, n) by {
                    assert(cost_at(costs1, dims, n) <= cost_at(costs0, dims, n));
                }
            }
        }
    }
}

/// Once all neighbours of a cell outside the destination have been looked at, the cell is
/// settled.
proof fn lemma_settled_after_expansion(
    grid: Grid<ObstacleType>,
    costs: Seq<u128>,
    destination: Rect,
    current: [u32; 2],
)
    requires
        !destination.spec_contains(current),
        forall|j: int| 0 <= j < 8 ==> #[trigger] neighbor_within_step(grid, costs, current, neighbor_offset(j)),
    ensures
        settled(grid, costs, destination, current),
{
    let dims = grid.spec_dimensions();
    assert forall|n: [u32; 2]|
        #![trigger adjacent(current, n)]
        in_bounds(dims, n) && adjacent(current, n) && is_free(grid, n) implies cost_at(costs, dims, n)
            <= cost_at(costs, dims, current) + step_cost(current, n) by {
        let j = lemma_adjacent_offset(current, n);
        assert(neighbor_within_step(grid, costs, current, neighbor_offset(j)));
        assert(n =~= [(current[0] + neighbor_offset(j).0) as u32, (current[1] + neighbor_offset(j).1) as u32]);
    }
}

/// Taking the lowest-rated entry out of the open set leaves every other reached cell settled
/// or waiting in it rated by its current cost.
proof fn lemma_order_after_pop(
    grid: Grid<ObstacleType>,
    costs: Seq<u128>,
    open_before: Seq<RatedNode>,
    open_popped: Seq<RatedNode>,
    node: RatedNode,
    destination: Rect,
)
    requires
        search_ordered(grid, costs, open_before, destination),
        elements_within(open_popped, open_before),
        forall|k: int|
            0 <= k < open_before.len() ==> #[trigger] open_before[k] == node || open_popped.contains(
                open_before[k],
            ),
        heap_ordered(open_before) ==> heap_ordered(open_popped),
    ensures
        heap_ordered(open_popped),
        entries_rated(open_popped, costs, grid.spec_dimensions()),
        forall|c: [u32; 2]|
            #![trigger cost_at(costs, grid.spec_dimensions(), c)]
            in_bounds(grid.spec_dimensions(), c) && c != node.0 && cost_at(costs, grid.spec_dimensions(), c)
                != UNKNOWN_COST ==> open_has_current(open_popped, costs, grid.spec_dimensions(), destination, c)
                || settled(grid, costs, destination, c),
{
    let dims = grid.spec_dimensions();
    assert forall|k: int| 0 <= k < open_popped.len() implies cost_at(costs, dims, (#[trigger] open_popped[k]).0)
        <= open_popped[k].1 by {
        assert(open_before.contains(open_popped[k]));
        let j = choose|j: int| 0 <= j < open_before.len() && open_before[j] == open_popped[k];
        assert(cost_at(costs, dims, open_before[j].0) <= open_before[j].1);
    }
    assert forall|c: [u32; 2]|
        #![trigger cost_at(costs, dims, c)]
        in_bounds(dims, c) && c != node.0 && cost_at(costs, dims, c) != UNKNOWN_COST implies open_has_current(
            open_popped,
            costs,
            dims,
            destination,
            c,
        ) || settled(grid, costs, destination, c) by {
        if open_has_current(open_before, costs, dims, destination, c) {
            let k = choose|k: int|
                0 <= k < open_before.len() && #[trigger] open_before[k].0 == c && is_estimate(
                    destination,
                    c,
                    open_before[k].1 - cost_at(costs, dims, c),
                );
            assert(open_before[k] != node);
            assert(open_popped.contains(open_before[k]));
            let m = choose|m: int| 0 <= m < open_popped.len() && open_popped[m] == open_before[k];
            assert(open_popped[m].0 == c);
        }
    }
}

/// What is left of a walk into the destination after its first step is again such a walk,
/// from the cell that step leads to.
proof fn lemma_walk_rest(grid: Grid<ObstacleType>, destination: Rect, from: [u32; 2], walk: Seq<[u32; 2]>)
    requires
        walk.len() > 0,
        is_walk_from(from, walk),
        all_free(grid, walk),
        destination.spec_contains(walk[0]),
    ensures
        adjacent(from, walk.last()),
        is_free(grid, walk.last()),
        in_bounds(grid.spec_dimensions(), walk.last()),
        is_walk_from(walk.last(), walk.drop_last()),
        all_free(grid, walk.drop_last()),
        walk.drop_last().len() == 0 ==> destination.spec_contains(walk.last()),
        walk.drop_last().len() > 0 ==> destination.spec_contains(walk.drop_last()[0]),
{
    let next = walk.last();
    let rest = walk.drop_last();
    assert(is_free(grid, walk[walk.len() - 1]));
    grid.lemma_cell_in_bounds(next);
    assert forall|k: int| 0 <= k < rest.len() - 1 implies adjacent(rest[k + 1], #[trigger] rest[k]) by {
        assert(adjacent(walk[k + 1], walk[k]));
    }
    if rest.len() > 0 {
        assert(adjacent(walk[rest.len() as int], walk[rest.len() - 1]));
        assert(rest[0] == walk[0]);
    }
    assert forall|k: int| 0 <= k < rest.len() implies #[trigger] is_free(grid, rest[k]) by {
        assert(is_free(grid, walk[k]));
    }
}

/// A walkable neighbour of a settled reached cell is reached, for at most that cell's cost
/// plus the step.
proof fn lemma_settled_step(
    grid: Grid<ObstacleType>,
    start: [u32; 2],
    costs: Seq<u128>,
    came_from: Seq<Option<[u32; 2]>>,
    open_set: Seq<RatedNode>,
    destination: Rect,
    from: [u32; 2],
    next: [u32; 2],
)
    requires
        search_inv(grid, start, costs, came_from, open_set),
        settled(grid, costs, destination, from),
        in_bounds(grid.spec_dimensions(), from),
        cost_at(costs, grid.spec_dimensions(), from) != UNKNOWN_COST,
        in_bounds(grid.spec_dimensions(), next),
        adjacent(from, next),
        is_free(grid, next),
    ensures
        cost_at(costs, grid.spec_dimensions(), next) <= cost_at(costs, grid.spec_dimensions(), from)
            + step_cost(from, next),
        cost_at(costs, grid.spec_dimensions(), next) != UNKNOWN_COST,
{
    let dims = grid.spec_dimensions();
    assert(cost_at(costs, dims, next) <= cost_at(costs, dims, from) + step_cost(from, next));
    grid.lemma_dimensions();
    lemma_finite_count_len(costs);
    assert(cost_at(costs, dims, from) <= DIAGONAL_STEP_COST * finite_count(costs));
}

/// Along any walk of walkable cells from a reached cell into the destination, some entry of
/// the open set is rated no higher than the cell's cost plus the walk's cost and the slack
/// for each of its steps.
#[verifier::rlimit(40)]
proof fn lemma_walk_meets_open(
    grid: Grid<ObstacleType>,
    start: [u32; 2],
    costs: Seq<u128>,
    came_from: Seq<Option<[u32; 2]>>,
    open_set: Seq<RatedNode>,
    destination: Rect,
    from: [u32; 2],
    walk: Seq<[u32; 2]>,
) -> (k: int)
    requires
        search_inv(grid, start, costs, came_from, open_set),
        search_ordered(grid, costs, open_set, destination),
        destination.wf(),
        in_bounds(grid.spec_dimensions(), from),
        cost_at(costs, grid.spec_dimensions(), from) != UNKNOWN_COST,
        is_walk_from(from, walk),
        all_free(grid, walk),
        walk.len() == 0 ==> destination.spec_contains(from),
        walk.len() > 0 ==> destination.spec_contains(walk[0]),
    ensures
        0 <= k < open_set.len(),
        open_set[k].1 <= cost_at(costs, grid.spec_dimensions(), from) + walk_cost(from, walk)
            + PATH_COST_SLACK_PER_STEP * walk.len(),
    decreases walk.len(),
{
    let dims = grid.spec_dimensions();
    if open_has_current(open_set, costs, dims, destination, from) {
        let k = choose|k: int|
            0 <= k < open_set.len() && #[trigger] open_set[k].0 == from && is_estimate(
                destination,
                from,
                open_set[k].1 - cost_at(costs, dims, from),
            );
        lemma_estimate_within_bound(destination, from, open_set[k].1 - cost_at(costs, dims, from));
        lemma_distance_bound_walk(destination, from, walk);
        k
    } else {
        assert(settled(grid, costs, destination, from));
        let next = walk.last();
        let rest = walk.drop_last();
        lemma_walk_rest(grid, destination, from, walk);
        lemma_settled_step(grid, start, costs, came_from, open_set, destination, from, next);
        let k = lemma_walk_meets_open(grid, start, costs, came_from, open_set, destination, next, rest);
        assert(walk_cost(from, walk) == step_cost(from, next) + walk_cost(next, rest));
        k
    }
}

/// When the lowest-rated entry of the open set is taken out, no walk from the start into the
/// destination costs less than the cost known for its cell, less the slack per step.
proof fn lemma_popped_cost_cheapest(
    grid: Grid<ObstacleType>,
    start: [u32; 2],
    costs: Seq<u128>,
    came_from: Seq<Option<[u32; 2]>>,
    open_set: Seq<RatedNode>,
    destination: Rect,
    node: RatedNode,
)
    requires
        search_inv(grid, start, costs, came_from, open_set),
        search_ordered(grid, costs, open_set, destination),
        destination.wf(),
        open_set.contains(node),
        forall|k: int| 0 <= k < open_set.len() ==> node.1 <= (#[trigger] open_set[k]).1,
    ensures
        forall|walk: Seq<[u32; 2]>|
            #![trigger walk_cost(start, walk)]
            is_walk_from(start, walk) && all_free(grid, walk) && (walk.len() == 0
                ==> destination.spec_contains(start)) && (walk.len() > 0 ==> destination.spec_contains(walk[0]))
                ==> cost_at(costs, grid.spec_dimensions(), node.0) <= walk_cost(start, walk)
                + PATH_COST_SLACK_PER_STEP * walk.len(),
{
    let dims = grid.spec_dimensions();
    let j = choose|j: int| 0 <= j < open_set.len() && open_set[j] == node;
    assert(cost_at(costs, dims, open_set[j].0) <= open_set[j].1);
    assert forall|walk: Seq<[u32; 2]>|
        #![trigger walk_cost(start, walk)]
        is_walk_from(start, walk) && all_free(grid, walk) && (walk.len() == 0
            ==> destination.spec_contains(start)) && (walk.len() > 0 ==> destination.spec_contains(walk[0]))
            implies cost_at(costs, dims, node.0) <= walk_cost(start, walk) + PATH_COST_SLACK_PER_STEP * walk.len() by {
        let k = lemma_walk_meets_open(grid, start, costs, came_from, open_set, destination, start, walk);
        assert(node.1 <= open_set[k].1);
    }
}

/// When no cell waits in the open set, every cell that a walk of walkable cells from the
/// start reaches has been explored, and so lies outside the destination.
proof fn lemma_search_exhausted(grid: Grid<ObstacleType>, costs: Seq<u128>, destination: Rect, start: [u32; 2])
    requires
        search_closed(grid, costs, Seq::empty(), destination),
        in_bounds(grid.spec_dimensions(), start),
        cost_at(costs, grid.spec_dimensions(), start) != UNKNOWN_COST,
    ensures
        !destination.spec_contains(start),
        forall|path: Seq<[u32; 2]>|
            is_walk_from(start, path) && all_free(grid, path) && path.len() > 0 ==> !destination.spec_contains(
                #[trigger] path[0],
            ),
{
    let dims = grid.spec_dimensions();
    assert(!open_has(Seq::<RatedNode>::empty(), start));
    assert(explored(grid, costs, destination, start));
    assert forall|path: Seq<[u32; 2]>|
        is_walk_from(start, path) && all_free(grid, path) && path.len() > 0 implies !destination.spec_contains(
            #[trigger] path[0],
        ) by {
        lemma_walk_explored(grid, costs, destination, start, path, 0);
    }
}

/// Every cell of a walk of walkable cells from an explored start is reached and explored.
proof fn lemma_walk_explored(
    grid: Grid<ObstacleType>,
    costs: Seq<u128>,
    destination: Rect,
    start: [u32; 2],
    path: Seq<[u32; 2]>,
    i: int,
)
    requires
        search_closed(grid, costs, Seq::empty(), destination),
        in_bounds(grid.spec_dimensions(), start),
        cost_at(costs, grid.spec_dimensions(), start) != UNKNOWN_COST,
        is_walk_from(start, path),
        all_free(grid, path),
        0 <= i < path.len(),
    ensures
        cost_at(costs, grid.spec_dimensions(), path[i]) != UNKNOWN_COST,
        explored(grid, costs, destination, path[i]),
    decreases path.len() - i,
{
    let dims = grid.spec_dimensions();
    assert(is_free(grid, path[i]));
    grid.lemma_cell_in_bounds(path[i]);
    let previous = if i == path.len() - 1 {
        start
    } else {
        lemma_walk_explored(grid, costs, destination, start, path, i + 1);
        path[i + 1]
    };
    assert(!open_has(Seq::<RatedNode>::empty(), previous));
    assert(explored(grid, costs, destination, previous));
    assert(adjacent(previous, path[i]));
    assert(cost_at(costs, dims, path[i]) != UNKNOWN_COST);
    assert(!open_has(Seq::<RatedNode>::empty(), path[i]));
}

/// An entry of the open set: a cell and its estimated total path cost.
#[derive(Copy, Clone)]
struct RatedNode([u32; 2], u128);

/// Whether some entry of the open set is for `cell`.
spec fn open_has(open_set: Seq<RatedNode>, cell: [u32; 2]) -> bool {
    exists|k: int| 0 <= k < open_set.len() && #[trigger] open_set[k].0 == cell
}

/// Every element of `a` occurs in `b`.
spec fn elements_within(a: Seq<RatedNode>, b: Seq<RatedNode>) -> bool {
    forall|k: int| 0 <= k < a.len() ==> b.contains(#[trigger] a[k])
}

/// The parent of the entry at `k` in the heap layout of the open set.
spec fn heap_parent(k: int) -> int {
    (k - 1) / 2
}

/// No entry is rated lower than its parent: the root has the lowest rating.
spec fn heap_ordered(h: Seq<RatedNode>) -> bool {
    forall|k: int| 0 < k < h.len() ==> h[heap_parent(k)].1 <= (#[trigger] h[k]).1
}

/// The heap is ordered but for the entry at `pos`, which may be rated lower than its
/// parent; the parent of `pos` is rated no higher than the children of `pos`.
spec fn heap_ordered_except(h: Seq<RatedNode>, pos: int) -> bool {
    &&& forall|k: int| 0 < k < h.len() && k != pos ==> h[heap_parent(k)].1 <= (#[trigger] h[k]).1
    &&& pos > 0 ==> forall|k: int|
        0 < k < h.len() && heap_parent(k) == pos ==> h[heap_parent(pos)].1 <= (#[trigger] h[k]).1
}

/// The heap is ordered but for the edges into and out of the entry at `hole`; the parent of
/// `hole` is rated no higher than the children of `hole`.
spec fn heap_ordered_around(h: Seq<RatedNode>, hole: int) -> bool {
    &&& forall|k: int|
        0 < k < h.len() && k != hole && heap_parent(k) != hole ==> h[heap_parent(k)].1 <= (#[trigger] h[k]).1
    &&& hole > 0 ==> forall|k: int|
        0 < k < h.len() && heap_parent(k) == hole ==> h[heap_parent(hole)].1 <= (#[trigger] h[k]).1
}

/// In an ordered heap the root is rated no higher than any entry.
proof fn lemma_heap_root_lowest(h: Seq<RatedNode>, k: int)
    requires
        heap_ordered(h),
        0 <= k < h.len(),
    ensures
        h[0].1 <= h[k].1,
    decreases k,
{
    if k > 0 {
        assert(h[heap_parent(k)].1 <= h[k].1);
        lemma_heap_root_lowest(h, heap_parent(k));
    }
}

/// Swaps two entries of the open set.
fn swap_nodes(heap: &mut Vec<RatedNode>, i: usize, j: usize)
    requires
        i < old(heap)@.len(),
        j < old(heap)@.len(),
    ensures
        final(heap)@ == old(heap)@.update(i as int, old(heap)@[j as int]).update(
            j as int,
            old(heap)@[i as int],
        ),
        elements_within(final(heap)@, old(heap)@),
        elements_within(old(heap)@, final(heap)@),
{
    let a = heap[i];
    let b = heap[j];
    heap.set(i, b);
    heap.set(j, a);
    let ghost o = old(heap)@;
    let ghost f = heap@;
    assert forall|k: int| 0 <= k < f.len() implies o.contains(#[trigger] f[k]) by {
        if k == i {
            assert(o[j as int] == f[k]);
        } else if k == j {
            assert(o[i as int] == f[k]);
        } else {
            assert(o[k] == f[k]);
        }
    }
    assert forall|k: int| 0 <= k < o.len() implies f.contains(#[trigger] o[k]) by {
        if k == i {
            assert(f[j as int] == o[k]);
        } else if k == j {
            assert(f[i as int] == o[k]);
        } else {
            assert(o[k] == f[k]);
        }
    }
}

/// Moves the entry at `pos` towards the root while it is rated lower than its parent: a
/// heap that was out of order only there is ordered afterwards.
fn sift_up(heap: &mut Vec<RatedNode>, pos: usize)
    requires
        pos < old(heap)@.len(),
    ensures
        final(heap)@.len() == old(heap)@.len(),
        elements_within(final(heap)@, old(heap)@),
        elements_within(old(heap)@, final(heap)@),
        heap_ordered_except(old(heap)@, pos as int) ==> heap_ordered(final(heap)@),
{
    let ghost start_ok = heap_ordered_except(heap@, pos as int);
    let mut pos = pos;
    while pos > 0
        invariant
            pos < heap@.len(),
            heap@.len() == old(heap)@.len(),
            elements_within(heap@, old(heap)@),
            elements_within(old(heap)@, heap@),
            start_ok ==> heap_ordered_except(heap@, pos as int),
        ensures
            heap@.len() == old(heap)@.len(),
            elements_within(heap@, old(heap)@),
            elements_within(old(heap)@, heap@),
            start_ok ==> heap_ordered(heap@),
        decreases pos,
    {
        let parent = (pos - 1) / 2;
        if heap[parent].1 <= heap[pos].1 {
            proof {
                if start_ok {
                    assert forall|k: int| 0 < k < heap@.len() implies heap@[heap_parent(k)].1 <= (#[trigger] heap@[k]).1 by {
                        if k == pos {
                            assert(heap_parent(k) == parent);
                        }
                    }
                }
            }
            break;
        }
        let ghost before = heap@;
        swap_nodes(heap, pos, parent);
        proof {
            if start_ok {
                let h = heap@;
                let p = parent as int;
                let q = pos as int;
                assert(heap_parent(q) == p);
                assert forall|k: int| 0 < k < h.len() && k != p implies h[heap_parent(k)].1 <= (#[trigger] h[k]).1 by {
                    if k == q {
                    } else if heap_parent(k) == q {
                        assert(before[heap_parent(q)].1 <= before[k].1);
                    } else if heap_parent(k) == p {
                        assert(before[p].1 <= before[k].1);
                    } else {
                        assert(before[heap_parent(k)].1 <= before[k].1);
                    }
                }
                if p > 0 {
                    assert forall|k: int| 0 < k < h.len() && heap_parent(k) == p implies h[heap_parent(p)].1 <= (#[trigger] h[k]).1 by {
                        assert(before[heap_parent(p)].1 <= before[p].1);
                        if k != q {
                            assert(before[p].1 <= before[k].1);
                        }
                    }
                }
            }
            lemma_elements_within_transitive(heap@, before, old(heap)@);
            lemma_elements_within_transitive(old(heap)@, before, heap@);
        }
        pos = parent;
    }
}

proof fn lemma_elements_within_transitive(a: Seq<RatedNode>, b: Seq<RatedNode>, c: Seq<RatedNode>)
    requires
        elements_within(a, b),
        elements_within(b, c),
    ensures
        elements_within(a, c),
{
    assert forall|k: int| 0 <= k < a.len() implies c.contains(#[trigger] a[k]) by {
        assert(b.contains(a[k]));
        let j = choose|j: int| 0 <= j < b.len() && b[j] == a[k];
        assert(c.contains(b[j]));
    }
}

/// Adds an entry to the open set, keeping the lowest rating at the root.
fn heap_push(heap: &mut Vec<RatedNode>, node: RatedNode)
    ensures
        final(heap)@.len() == old(heap)@.len() + 1,
        elements_within(final(heap)@, old(heap)@.push(node)),
        elements_within(old(heap)@.push(node), final(heap)@),
        heap_ordered(old(heap)@) ==> heap_ordered(final(heap)@),
{
    let old_len = heap.len();
    heap.push(node);
    proof {
        let h = heap@;
        if heap_ordered(old(heap)@) {
            assert forall|k: int| 0 < k < h.len() && k != old_len implies h[heap_parent(k)].1 <= (#[trigger] h[k]).1 by {
                assert(old(heap)@[heap_parent(k)].1 <= old(heap)@[k].1);
            }
        }
    }
    sift_up(heap, old_len);
}

/// Removes and returns the entry at the root, the one with the lowest rating.
fn heap_pop(heap: &mut Vec<RatedNode>) -> (node: RatedNode)
    requires
        old(heap)@.len() > 0,
    ensures
        final(heap)@.len() == old(heap)@.len() - 1,
        old(heap)@.contains(node),
        elements_within(final(heap)@, old(heap)@),
        forall|k: int|
            0 <= k < old(heap)@.len() ==> #[trigger] old(heap)@[k] == node || final(heap)@.contains(
                old(heap)@[k],
            ),
        heap_ordered(old(heap)@) ==> heap_ordered(final(heap)@),
        heap_ordered(old(heap)@) ==> forall|k: int| 0 <= k < old(heap)@.len() ==> node.1 <= (#[trigger] old(heap)@[k]).1,
{
    proof {
        if heap_ordered(heap@) {
            assert forall|k: int| 0 <= k < heap@.len() implies heap@[0].1 <= (#[trigger] heap@[k]).1 by {
                lemma_heap_root_lowest(heap@, k);
            }
        }
    }
    let ghost o = heap@;
    let mut item = heap.pop().unwrap();
    assert(o[o.len() - 1] == item);
    if heap.len() > 0 {
        let top = heap[0];
        heap.set(0, item);
        item = top;
        let ghost mid = heap@;
        assert(o[0] == item);
        assert forall|k: int| 0 <= k < mid.len() implies o.contains(#[trigger] mid[k]) by {
            if k == 0 {
                assert(o[o.len() - 1] == mid[k]);
            } else {
                assert(o[k] == mid[k]);
            }
        }
        assert forall|k: int| 0 <= k < o.len() implies #[trigger] o[k] == item || mid.contains(
            o[k],
        ) by {
            if k == o.len() - 1 {
                assert(mid[0] == o[k]);
            } else if k > 0 {
                assert(mid[k] == o[k]);
            }
        }
        proof {
            if heap_ordered(o) {
                assert forall|k: int| 0 < k < mid.len() && k != 0 && heap_parent(k) != 0 implies mid[heap_parent(k)].1 <= (#[trigger] mid[k]).1 by {
                    assert(o[heap_parent(k)].1 <= o[k].1);
                }
            }
        }
        sift_down_to_bottom(heap);
        proof {
            lemma_elements_within_transitive(heap@, mid, o);
            assert forall|k: int| 0 <= k < o.len() implies #[trigger] o[k] == item
                || heap@.contains(o[k]) by {
                if o[k] != item {
                    assert(mid.contains(o[k]));
                    let j = choose|j: int| 0 <= j < mid.len() && mid[j] == o[k];
                    assert(heap@.contains(mid[j]));
                }
            }
        }
    } else {
        assert forall|k: int| 0 <= k < o.len() implies #[trigger] o[k] == item
            || heap@.contains(o[k]) by {
            assert(k == 0);
        }
    }
    item
}

/// Moves the root entry down to a leaf, always along the lower-rated child (the right
/// one on ties), then back up to where it belongs: a heap that was out of order only at the
/// root is ordered afterwards.
fn sift_down_to_bottom(heap: &mut Vec<RatedNode>)
    requires
        old(heap)@.len() > 0,
    ensures
        final(heap)@.len() == old(heap)@.len(),
        elements_within(final(heap)@, old(heap)@),
        elements_within(old(heap)@, final(heap)@),
        heap_ordered_around(old(heap)@, 0) ==> heap_ordered(final(heap)@),
{
    let ghost start_ok = heap_ordered_around(heap@, 0);
    let end = heap.len();
    let mut hole: usize = 0;
    let mut child: usize = 1;
    while child <= end.saturating_sub(2)
        invariant
            end == heap@.len(),
            end == old(heap)@.len(),
            hole < end,
            child == 2 * hole + 1 || (child == end && 2 * hole + 1 > usize::MAX),
            elements_within(heap@, old(heap)@),
            elements_within(old(heap)@, heap@),
            start_ok ==> heap_ordered_around(heap@, hole as int),
        decreases end - hole,
    {
        if heap[child + 1].1 <= heap[child].1 {
            child = child + 1;
        }
        let ghost before = heap@;
        swap_nodes(heap, hole, child);
        proof {
            if start_ok {
                lemma_sift_down_step(before, heap@, hole as int, child as int);
            }
            lemma_elements_within_transitive(heap@, before, old(heap)@);
            lemma_elements_within_transitive(old(heap)@, before, heap@);
        }
        hole = child;
        // A child index beyond the address space lies beyond the end as well.
        child = if hole <= (usize::MAX - 1) / 2 {
            2 * hole + 1
        } else {
            end
        };
    }
    if child == end - 1 {
        let ghost before = heap@;
        swap_nodes(heap, hole, child);
        proof {
            if start_ok {
                lemma_sift_down_step(before, heap@, hole as int, child as int);
            }
            lemma_elements_within_transitive(heap@, before, old(heap)@);
            lemma_elements_within_transitive(old(heap)@, before, heap@);
        }
        hole = child;
    }
    let ghost before = heap@;
    proof {
        if start_ok {
            lemma_leaf_disorder(before, hole as int);
        }
    }
    sift_up(heap, hole);
    proof {
        lemma_elements_within_transitive(heap@, before, old(heap)@);
        lemma_elements_within_transitive(old(heap)@, before, heap@);
    }
}

/// Disorder around an entry without children is disorder at that entry alone.
proof fn lemma_leaf_disorder(h: Seq<RatedNode>, hole: int)
    requires
        heap_ordered_around(h, hole),
        0 <= hole < h.len(),
        2 * hole + 1 >= h.len(),
    ensures
        heap_ordered_except(h, hole),
{
    assert forall|k: int| 0 < k < h.len() implies heap_parent(k) != hole by {}
}

/// Swapping the entry at `hole` with its lowest-rated child moves the disorder one level
/// down.
proof fn lemma_sift_down_step(before: Seq<RatedNode>, after: Seq<RatedNode>, hole: int, child: int)
    requires
        heap_ordered_around(before, hole),
        0 <= hole < child < before.len(),
        child == 2 * hole + 1 || child == 2 * hole + 2,
        before[child].1 <= before[2 * hole + 1].1,
        2 * hole + 2 < before.len() ==> before[child].1 <= before[2 * hole + 2].1,
        after == before.update(hole, before[child]).update(child, before[hole]),
    ensures
        heap_ordered_around(after, child),
{
    assert forall|k: int| 0 < k && heap_parent(k) == hole implies k == 2 * hole + 1 || k == 2 * hole + 2 by {}
    assert(heap_parent(child) == hole);
    assert forall|k: int| 0 < k < after.len() && k != child && heap_parent(k) != child implies after[heap_parent(k)].1 <= (#[trigger] after[k]).1 by {
        if k == hole {
            assert(before[heap_parent(hole)].1 <= before[child].1);
        } else if heap_parent(k) == hole {
            assert(before[child].1 <= before[k].1);
        } else {
            assert(before[heap_parent(k)].1 <= before[k].1);
        }
    }
    assert forall|k: int| 0 < k < after.len() && heap_parent(k) == child implies after[heap_parent(child)].1 <= (#[trigger] after[k]).1 by {
        assert(k != hole && heap_parent(k) != hole);
        assert(before[heap_parent(k)].1 <= before[k].1);
    }
}

} // verus!
