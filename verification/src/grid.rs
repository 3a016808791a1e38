use vstd::prelude::*;

use crate::game_core::ObstacleType;

verus! {

/// A value that a grid cell can hold, with the value that fresh cells start with.
pub trait GridCell: Copy + Sized {
    spec fn spec_empty() -> Self;

    fn empty() -> (cell: Self)
        ensures
            cell == Self::spec_empty(),
    ;
}

impl GridCell for ObstacleType {
    open spec fn spec_empty() -> Self {
        ObstacleType::Free
    }

    fn empty() -> (cell: Self) {
        ObstacleType::Free
    }
}

impl GridCell for bool {
    open spec fn spec_empty() -> Self {
        false
    }

    fn empty() -> (cell: Self) {
        false
    }
}

/// Whether `position` lies inside a grid of the given dimensions.
pub open spec fn in_bounds(dimensions: [u32; 2], position: [u32; 2]) -> bool {
    position[0] < dimensions[0] && position[1] < dimensions[1]
}

/// Whether a grid of the given dimensions can be allocated: its cell count fits in a `u32`.
pub open spec fn valid_dimensions(dimensions: [u32; 2]) -> bool {
    dimensions[0] * dimensions[1] <= u32::MAX
}

/// Whether every cell of `area` lies inside a grid of the given dimensions.
pub open spec fn rect_fits(area: CellRect, dimensions: [u32; 2]) -> bool {
    area.position[0] + area.size[0] <= dimensions[0] && area.position[1] + area.size[1]
        <= dimensions[1]
}

/// Whether `area` covers no cell.
pub open spec fn rect_is_empty(area: CellRect) -> bool {
    area.size[0] == 0 || area.size[1] == 0
}

/// What `set_area` needs of an area: its far edges are representable, and
/// a non-empty area lies inside the grid.
pub open spec fn area_settable(area: CellRect, dimensions: [u32; 2]) -> bool {
    &&& area.position[0] + area.size[0] <= u32::MAX
    &&& area.position[1] + area.size[1] <= u32::MAX
    &&& (rect_is_empty(area) || rect_fits(area, dimensions))
}

/// Index of an in-bounds position in row-major cell storage.
pub open spec fn spec_cell_index(dimensions: [u32; 2], position: [u32; 2]) -> int {
    position[1] * dimensions[0] + position[0]
}

pub proof fn lemma_cell_index_bounds(dimensions: [u32; 2], position: [u32; 2])
    requires
        in_bounds(dimensions, position),
    ensures
        0 <= spec_cell_index(dimensions, position) < dimensions[0] * dimensions[1],
{
    assert(position[1] * dimensions[0] + position[0] < dimensions[0] * dimensions[1])
        by (nonlinear_arith)
        requires
            position[0] < dimensions[0],
            position[1] < dimensions[1],
    ;
}

pub proof fn lemma_cell_index_injective(dimensions: [u32; 2], p: [u32; 2], q: [u32; 2])
    requires
        in_bounds(dimensions, p),
        in_bounds(dimensions, q),
        p != q,
    ensures
        spec_cell_index(dimensions, p) != spec_cell_index(dimensions, q),
{
    if p[1] == q[1] {
        if p[0] == q[0] {
            assert(p =~= q);
        }
    } else if p[1] < q[1] {
        assert(p[1] * dimensions[0] + dimensions[0] <= q[1] * dimensions[0]) by (nonlinear_arith)
            requires
                p[1] < q[1],
        ;
    } else {
        assert(q[1] * dimensions[0] + dimensions[0] <= p[1] * dimensions[0]) by (nonlinear_arith)
            requires
                q[1] < p[1],
        ;
    }
}

/// Row-major cell storage shared by the grid types.
struct _Grid<T> {
    cells: Vec<T>,
    dimensions: [u32; 2],
}

impl<T: GridCell> _Grid<T> {
    spec fn wf(&self) -> bool {
        &&& valid_dimensions(self.dimensions)
        &&& self.cells@.len() == self.dimensions[0] * self.dimensions[1]
    }

    spec fn at(&self, position: [u32; 2]) -> Option<T> {
        if in_bounds(self.dimensions, position) {
            Some(self.cells@[spec_cell_index(self.dimensions, position)])
        } else {
            None
        }
    }

    fn new(dimensions: [u32; 2]) -> (grid: Self)
        requires
            valid_dimensions(dimensions),
        ensures
            grid.wf(),
            grid.dimensions == dimensions,
            forall|p: [u32; 2]|
                in_bounds(dimensions, p) ==> #[trigger] grid.at(p) == Some(T::spec_empty()),
    {
        let n: u32 = dimensions[0] * dimensions[1];
        let mut cells: Vec<T> = Vec::new();
        let mut i: u32 = 0;
        while i < n
            invariant
                i <= n,
                cells@.len() == i,
                forall|j: int| 0 <= j < i ==> cells@[j] == T::spec_empty(),
            decreases n - i,
        {
            cells.push(T::empty());
            i = i + 1;
        }
        let grid = Self { cells, dimensions };
        assert forall|p: [u32; 2]| in_bounds(dimensions, p) implies #[trigger] grid.at(p) == Some(
            T::spec_empty(),
        ) by {
            lemma_cell_index_bounds(dimensions, p);
        }
        grid
    }

    fn cell_index(&self, position: &[u32; 2]) -> (index: Option<usize>)
        requires
            self.wf(),
        ensures
            match index {
                Some(i) => {
                    &&& in_bounds(self.dimensions, *position)
                    &&& i == spec_cell_index(self.dimensions, *position)
                    &&& i < self.cells@.len()
                },
                None => !in_bounds(self.dimensions, *position),
            },
    {
        let x = position[0];
        let y = position[1];
        if x >= self.dimensions[0] || y >= self.dimensions[1] {
            None
        } else {
            proof {
                lemma_cell_index_bounds(self.dimensions, *position);
            }
            Some((y * self.dimensions[0] + x) as usize)
        }
    }

    fn get(&self, position: &[u32; 2]) -> (value: Option<T>)
        requires
            self.wf(),
        ensures
            value == self.at(*position),
    {
        match self.cell_index(position) {
            Some(i) => Some(self.cells[i]),
            None => None,
        }
    }

    fn set(&mut self, position: [u32; 2], value: T)
        requires
            old(self).wf(),
            in_bounds(old(self).dimensions, position),
        ensures
            final(self).wf(),
            final(self).dimensions == old(self).dimensions,
            forall|p: [u32; 2]|
                #[trigger] final(self).at(p) == if p == position {
                    Some(value)
                } else {
                    old(self).at(p)
                },
    {
        let i = self.cell_index(&position).unwrap();
        self.cells.set(i, value);
        proof {
            assert forall|p: [u32; 2]| #[trigger]
                self.at(p) == if p == position {
                    Some(value)
                } else {
                    old(self).at(p)
                } by {
                if p != position && in_bounds(self.dimensions, p) {
                    lemma_cell_index_injective(self.dimensions, p, position);
                    lemma_cell_index_bounds(self.dimensions, p);
                }
            }
        }
    }
}

/// A grid of obstacles that refuses to free a free cell or to occupy an occupied one.
pub struct ObstacleGrid {
    grid: _Grid<ObstacleType>,
}

impl ObstacleGrid {
    pub closed spec fn wf(&self) -> bool {
        self.grid.wf()
    }

    /// The cell at `position`, or `None` outside the grid.
    pub closed spec fn cell(&self, position: [u32; 2]) -> Option<ObstacleType> {
        self.grid.at(position)
    }

    pub closed spec fn spec_dimensions(&self) -> [u32; 2] {
        self.grid.dimensions
    }

    pub fn new(dimensions: [u32; 2]) -> (grid: Self)
        requires
            valid_dimensions(dimensions),
        ensures
            grid.wf(),
            grid.spec_dimensions() == dimensions,
            forall|p: [u32; 2]| #[trigger]
                grid.cell(p) == if in_bounds(dimensions, p) {
                    Some(ObstacleType::Free)
                } else {
                    None
                },
    {
        let grid = _Grid::new(dimensions);
        Self { grid }
    }

    /// Occupies a free cell or frees an occupied one.
    pub fn set(&mut self, position: [u32; 2], obstacle: ObstacleType)
        requires
            old(self).wf(),
            in_bounds(old(self).spec_dimensions(), position),
            obstacle == ObstacleType::Free ==> old(self).cell(position) != Some(ObstacleType::Free),
            obstacle != ObstacleType::Free ==> old(self).cell(position) == Some(ObstacleType::Free),
        ensures
            final(self).wf(),
            final(self).spec_dimensions() == old(self).spec_dimensions(),
            forall|p: [u32; 2]| #[trigger]
                final(self).cell(p) == if p == position {
                    Some(obstacle)
                } else {
                    old(self).cell(p)
                },
    {
        self.grid.set(position, obstacle);
    }

    pub fn set_area(&mut self, area: CellRect, obstacle: ObstacleType)
        requires
            old(self).wf(),
            area_settable(area, old(self).spec_dimensions()),
            forall|p: [u32; 2]|
                #[trigger] area.spec_contains(p) ==> if obstacle == ObstacleType::Free {
                    old(self).cell(p) != Some(ObstacleType::Free)
                } else {
                    old(self).cell(p) == Some(ObstacleType::Free)
                },
        ensures
            final(self).wf(),
            final(self).spec_dimensions() == old(self).spec_dimensions(),
            forall|p: [u32; 2]| #[trigger]
                final(self).cell(p) == if area.spec_contains(p) {
                    Some(obstacle)
                } else {
                    old(self).cell(p)
                },
    {
        let ghost start = *self;
        let x_end = area.position[0] + area.size[0];
        let y_end = area.position[1] + area.size[1];
        let mut x = area.position[0];
        while x < x_end
            invariant
                self.wf(),
                self.spec_dimensions() == start.spec_dimensions(),
                area_settable(area, start.spec_dimensions()),
                area.position[0] <= x <= x_end,
                x_end == area.position[0] + area.size[0],
                y_end == area.position[1] + area.size[1],
                forall|p: [u32; 2]|
                    #[trigger] area.spec_contains(p) ==> if obstacle == ObstacleType::Free {
                        start.cell(p) != Some(ObstacleType::Free)
                    } else {
                        start.cell(p) == Some(ObstacleType::Free)
                    },
                forall|p: [u32; 2]| #[trigger]
                    self.cell(p) == if area.spec_contains(p) && p[0] < x {
                        Some(obstacle)
                    } else {
                        start.cell(p)
                    },
            decreases x_end - x,
        {
            let mut y = area.position[1];
            while y < y_end
                invariant
                    self.wf(),
                    self.spec_dimensions() == start.spec_dimensions(),
                    area_settable(area, start.spec_dimensions()),
                    area.position[0] <= x < x_end,
                    area.position[1] <= y <= y_end,
                    x_end == area.position[0] + area.size[0],
                    y_end == area.position[1] + area.size[1],
                    forall|p: [u32; 2]|
                        #[trigger] area.spec_contains(p) ==> if obstacle == ObstacleType::Free {
                            start.cell(p) != Some(ObstacleType::Free)
                        } else {
                            start.cell(p) == Some(ObstacleType::Free)
                        },
                    forall|p: [u32; 2]| #[trigger]
                        self.cell(p) == if area.spec_contains(p) && (p[0] < x || (p[0] == x
                            && p[1] < y)) {
                            Some(obstacle)
                        } else {
                            start.cell(p)
                        },
                decreases y_end - y,
            {
                let ghost before = *self;
                assert(area.spec_contains([x, y]));
                self.set([x, y], obstacle);
                assert forall|p: [u32; 2]| #[trigger]
                    self.cell(p) == if area.spec_contains(p) && (p[0] < x || (p[0] == x && p[1]
                        < y + 1)) {
                        Some(obstacle)
                    } else {
                        start.cell(p)
                    } by {
                    if p == [x, y] {
                    } else {
                        assert(self.cell(p) == before.cell(p));
                        if p[0] == x && p[1] == y {
                            assert(p =~= [x, y]);
                        }
                    }
                }
                y = y + 1;
            }
            x = x + 1;
        }
        assert forall|p: [u32; 2]| #[trigger]
            self.cell(p) == if area.spec_contains(p) {
                Some(obstacle)
            } else {
                start.cell(p)
            } by {
            if area.spec_contains(p) {
                assert(p[0] < x);
            }
        }
    }

    pub fn get(&self, position: &[u32; 2]) -> (obstacle: Option<ObstacleType>)
        requires
            self.wf(),
        ensures
            obstacle == self.cell(*position),
    {
        self.grid.get(position)
    }

    pub fn dimensions(&self) -> (dimensions: [u32; 2])
        ensures
            dimensions == self.spec_dimensions(),
    {
        self.grid.dimensions
    }
}

/// A grid that holds one value per cell.
pub struct Grid<T> {
    grid: _Grid<T>,
}

impl<T: GridCell> Grid<T> {
    pub closed spec fn wf(&self) -> bool {
        self.grid.wf()
    }

    /// Exactly the cells inside the grid hold a value.
    pub proof fn lemma_cell_in_bounds(&self, position: [u32; 2])
        ensures
            (self.cell(position) is Some) == in_bounds(self.spec_dimensions(), position),
    {
    }

    /// A well-formed grid has a cell count that fits in a `u32`.
    pub proof fn lemma_dimensions(&self)
        requires
            self.wf(),
        ensures
            valid_dimensions(self.spec_dimensions()),
    {
    }

    /// The value at `position`, or `None` outside the grid.
    pub closed spec fn cell(&self, position: [u32; 2]) -> Option<T> {
        self.grid.at(position)
    }

    pub closed spec fn spec_dimensions(&self) -> [u32; 2] {
        self.grid.dimensions
    }

    pub fn new(dimensions: [u32; 2]) -> (grid: Self)
        requires
            valid_dimensions(dimensions),
        ensures
            grid.wf(),
            grid.spec_dimensions() == dimensions,
            forall|p: [u32; 2]| #[trigger]
                grid.cell(p) == if in_bounds(dimensions, p) {
                    Some(T::spec_empty())
                } else {
                    None
                },
    {
        let grid = _Grid::new(dimensions);
        Self { grid }
    }

    pub fn set(&mut self, position: [u32; 2], value: T)
        requires
            old(self).wf(),
            in_bounds(old(self).spec_dimensions(), position),
        ensures
            final(self).wf(),
            final(self).spec_dimensions() == old(self).spec_dimensions(),
            forall|p: [u32; 2]| #[trigger]
                final(self).cell(p) == if p == position {
                    Some(value)
                } else {
                    old(self).cell(p)
                },
    {
        self.grid.set(position, value);
    }

    pub fn set_area(&mut self, area: CellRect, value: T)
        requires
            old(self).wf(),
            area_settable(area, old(self).spec_dimensions()),
        ensures
            final(self).wf(),
            final(self).spec_dimensions() == old(self).spec_dimensions(),
            forall|p: [u32; 2]| #[trigger]
                final(self).cell(p) == if area.spec_contains(p) {
                    Some(value)
                } else {
                    old(self).cell(p)
                },
    {
        let ghost start = *self;
        let x_end = area.position[0] + area.size[0];
        let y_end = area.position[1] + area.size[1];
        let mut x = area.position[0];
        while x < x_end
            invariant
                self.wf(),
                self.spec_dimensions() == start.spec_dimensions(),
                area_settable(area, start.spec_dimensions()),
                area.position[0] <= x <= x_end,
                x_end == area.position[0] + area.size[0],
                y_end == area.position[1] + area.size[1],
                forall|p: [u32; 2]| #[trigger]
                    self.cell(p) == if area.spec_contains(p) && p[0] < x {
                        Some(value)
                    } else {
                        start.cell(p)
                    },
            decreases x_end - x,
        {
            let mut y = area.position[1];
            while y < y_end
                invariant
                    self.wf(),
                    self.spec_dimensions() == start.spec_dimensions(),
                    area_settable(area, start.spec_dimensions()),
                    area.position[0] <= x < x_end,
                    area.position[1] <= y <= y_end,
                    x_end == area.position[0] + area.size[0],
                    y_end == area.position[1] + area.size[1],
                    forall|p: [u32; 2]| #[trigger]
                        self.cell(p) == if area.spec_contains(p) && (p[0] < x || (p[0] == x
                            && p[1] < y)) {
                            Some(value)
                        } else {
                            start.cell(p)
                        },
                decreases y_end - y,
            {
                let ghost before = *self;
                assert(area.spec_contains([x, y]));
                self.set([x, y], value);
                assert forall|p: [u32; 2]| #[trigger]
                    self.cell(p) == if area.spec_contains(p) && (p[0] < x || (p[0] == x && p[1]
                        < y + 1)) {
                        Some(value)
                    } else {
                        start.cell(p)
                    } by {
                    if p == [x, y] {
                    } else {
                        assert(self.cell(p) == before.cell(p));
                        if p[0] == x && p[1] == y {
                            assert(p =~= [x, y]);
                        }
                    }
                }
                y = y + 1;
            }
            x = x + 1;
        }
        assert forall|p: [u32; 2]| #[trigger]
            self.cell(p) == if area.spec_contains(p) {
                Some(value)
            } else {
                start.cell(p)
            } by {
            if area.spec_contains(p) {
                assert(p[0] < x);
            }
        }
    }

    pub fn get(&self, position: &[u32; 2]) -> (value: Option<T>)
        requires
            self.wf(),
        ensures
            value == self.cell(*position),
    {
        self.grid.get(position)
    }

    pub fn dimensions(&self) -> (dimensions: [u32; 2])
        ensures
            dimensions == self.spec_dimensions(),
    {
        self.grid.dimensions
    }
}

/// A rectangle of cells: `size[0]` columns and `size[1]` rows from `position`.
#[derive(Debug, Copy, Clone)]
pub struct CellRect {
    pub position: [u32; 2],
    pub size: [u32; 2],
}

impl CellRect {
    pub open spec fn spec_contains(&self, point: [u32; 2]) -> bool {
        &&& self.position[0] <= point[0] < self.position[0] + self.size[0]
        &&& self.position[1] <= point[1] < self.position[1] + self.size[1]
    }

    pub fn contains(&self, point: [u32; 2]) -> (inside: bool)
        requires
            self.position[0] + self.size[0] <= u32::MAX,
            self.position[1] + self.size[1] <= u32::MAX,
        ensures
            inside == self.spec_contains(point),
    {
        point[0] >= self.position[0] && point[0] < self.position[0] + self.size[0] && point[1]
            >= self.position[1] && point[1] < self.position[1] + self.size[1]
    }
}

} // verus!
