//! The occupancy grid of the path planning service: cells in rows, each
//! passable, blocked for good, or blocked for the time being.

use vstd::prelude::*;

verus! {

/// A position on the grid: column `x`, row `y`.
#[derive(Clone, Copy, Debug, PartialEq, Eq, Hash, Structural)]
pub struct Vector2 {
    pub x: usize,
    pub y: usize,
}

impl Vector2 {
    /// The position in column `x` and row `y`.
    pub fn new(x: usize, y: usize) -> (v: Vector2)
        ensures
            v == (Vector2 { x, y }),
    {
        Vector2 { x, y }
    }
}

/// One cell of the grid.
#[derive(Debug, PartialEq, Eq)]
pub enum Cell {
    /// Free to pass.
    Passable,
    /// Blocked for good.
    Obstacle,
    /// Blocked for the time being; holds what the cell was before.
    Temporary(Box<Cell>),
}

/// The three kinds of cell, as they are reported to other processes.
#[derive(Clone, Copy, Debug, PartialEq, Eq, Structural)]
pub enum CellKind {
    Passable,
    Obstacle,
    Temporary,
}

/// A map as the configuration gives it: its size, and for each cell, row
/// by row, whether it is passable.
pub struct MapData {
    pub map_size_x: i32,
    pub map_size_y: i32,
    pub map_data: Vec<bool>,
}

/// A grid as it is reported to other processes.
pub struct GridData {
    pub width: i32,
    pub height: i32,
    pub grid: Vec<CellKind>,
}

/// The cell that a map entry stands for.
pub open spec fn cell_of(passable: bool) -> Cell {
    if passable {
        Cell::Passable
    } else {
        Cell::Obstacle
    }
}

impl Clone for Cell {
    /// A copy of the cell, with what it remembers.
    fn clone(&self) -> (res: Self)
        ensures
            res == *self,
        decreases self,
    {
        match self {
            Cell::Passable => Cell::Passable,
            Cell::Obstacle => Cell::Obstacle,
            Cell::Temporary(inner) => Cell::Temporary(Box::new((&**inner).clone())),
        }
    }
}

impl Cell {
    /// The kind of the cell.
    pub open spec fn kind(self) -> CellKind {
        match self {
            Cell::Passable => CellKind::Passable,
            Cell::Obstacle => CellKind::Obstacle,
            Cell::Temporary(_) => CellKind::Temporary,
        }
    }

    /// What the cell is once a temporary block on it is lifted: what it
    /// was before the block. A cell without such a block becomes passable.
    pub open spec fn lifted(self) -> Cell {
        match self {
            Cell::Temporary(inner) => *inner,
            _ => Cell::Passable,
        }
    }

    /// What the cell is once every temporary block is swept away.
    pub open spec fn swept(self) -> Cell {
        match self {
            Cell::Temporary(_) => Cell::Passable,
            _ => self,
        }
    }

    /// The kind of the cell, for reporting.
    pub fn serialize(&self) -> (k: CellKind)
        ensures
            k == self.kind(),
    {
        match self {
            Cell::Passable => CellKind::Passable,
            Cell::Obstacle => CellKind::Obstacle,
            Cell::Temporary(_) => CellKind::Temporary,
        }
    }
}

/// The cells after each position in `ps`, first to last, got a temporary
/// block, in a grid of the given width.
pub open spec fn blocked_at(cells: Seq<Cell>, width: usize, ps: Seq<Vector2>) -> Seq<Cell>
    decreases ps.len(),
{
    if ps.len() == 0 {
        cells
    } else {
        let before = blocked_at(cells, width, ps.drop_last());
        let at = ps.last().y * width + ps.last().x;
        before.update(at, Cell::Temporary(Box::new(before[at])))
    }
}

/// The cells after the temporary block at each position in `ps`, first to
/// last, was lifted, in a grid of the given width.
pub open spec fn lifted_at(cells: Seq<Cell>, width: usize, ps: Seq<Vector2>) -> Seq<Cell>
    decreases ps.len(),
{
    if ps.len() == 0 {
        cells
    } else {
        let before = lifted_at(cells, width, ps.drop_last());
        let at = ps.last().y * width + ps.last().x;
        before.update(at, before[at].lifted())
    }
}

/// A rectangular grid of cells, stored row by row.
pub struct Grid2d {
    pub width: usize,
    pub height: usize,
    pub cells: Vec<Cell>,
}

impl Grid2d {
    /// Whether there is one cell for each position.
    pub open spec fn wf(&self) -> bool {
        self.cells@.len() == self.width * self.height
    }

    /// The place of the cell at `pos` among the cells.
    pub open spec fn location(&self, pos: Vector2) -> int {
        pos.y * self.width + pos.x
    }

    /// Whether `pos` lies on the grid.
    pub open spec fn contains(&self, pos: Vector2) -> bool {
        pos.x < self.width && pos.y < self.height
    }

    /// Whether `pos` lies on the grid and its cell is free to pass.
    pub open spec fn open_at(&self, pos: Vector2) -> bool {
        self.contains(pos) && self.cells@[self.location(pos)] is Passable
    }

    /// `found` followed by the position in column `x` and row `y`, if that
    /// is a position on the grid whose cell is free to pass.
    pub open spec fn and_if_open(&self, found: Seq<Vector2>, x: int, y: int) -> Seq<Vector2> {
        if 0 <= x < self.width && 0 <= y < self.height && self.cells@[y * self.width + x]
            is Passable {
            found.push(Vector2 { x: x as usize, y: y as usize })
        } else {
            found
        }
    }

    /// The open positions next to `pos`: to the right, below, to the left,
    /// above, in this order.
    pub open spec fn open_neighbors(&self, pos: Vector2) -> Seq<Vector2> {
        let right = self.and_if_open(Seq::empty(), pos.x + 1, pos.y as int);
        let below = self.and_if_open(right, pos.x as int, pos.y + 1);
        let left = self.and_if_open(below, pos.x - 1, pos.y as int);
        self.and_if_open(left, pos.x as int, pos.y - 1)
    }

    /// A grid of the given size whose cells are passable where `map_data`
    /// says so and obstacles elsewhere.
    pub fn new(width: usize, height: usize, map_data: &[bool]) -> (g: Grid2d)
        ensures
            g.width == width,
            g.height == height,
            g.cells@ == map_data@.map_values(|p: bool| cell_of(p)),
    {
        let mut cells: Vec<Cell> = Vec::new();
        let mut i: usize = 0;
        while i < map_data.len()
            invariant
                i <= map_data@.len(),
                cells@ == map_data@.take(i as int).map_values(|p: bool| cell_of(p)),
            decreases map_data@.len() - i,
        {
            let ghost before = cells@;
            if map_data[i] {
                cells.push(Cell::Passable);
            } else {
                cells.push(Cell::Obstacle);
            }
            assert(map_data@.take(i + 1) == map_data@.take(i as int).push(map_data@[i as int]));
            assert(cells@ == before.push(cell_of(map_data@[i as int])));
            i += 1;
        }
        assert(map_data@.take(map_data@.len() as int) == map_data@);
        Grid2d { width, height, cells }
    }

    /// The grid that the configured map describes.
    pub fn from_map_data(map_data: MapData) -> (g: Grid2d)
        ensures
            g.width == map_data.map_size_x as usize,
            g.height == map_data.map_size_y as usize,
            g.cells@ == map_data.map_data@.map_values(|p: bool| cell_of(p)),
    {
        Grid2d::new(
            map_data.map_size_x as usize,
            map_data.map_size_y as usize,
            map_data.map_data.as_slice(),
        )
    }

    /// The place of the cell at `pos` among the cells.
    pub fn get_cell_location(&self, pos: Vector2) -> (at: usize)
        requires
            self.location(pos) <= usize::MAX,
        ensures
            at == self.location(pos),
    {
        assert(pos.y * self.width <= self.location(pos)) by (nonlinear_arith)
            requires
                self.location(pos) == pos.y * self.width + pos.x,
        ;
        pos.y * self.width + pos.x
    }

    /// Tells whether `pos` lies on the grid.
    pub fn in_bounds(&self, pos: Vector2) -> (r: bool)
        ensures
            r == self.contains(pos),
    {
        pos.x < self.width && pos.y < self.height
    }

    /// Tells whether the cell at `pos` is free to pass.
    pub fn is_passable(&self, pos: Vector2) -> (r: bool)
        requires
            self.location(pos) < self.cells@.len(),
        ensures
            r == (self.cells@[self.location(pos)] is Passable),
    {
        let count: usize = self.cells.len();
        assert(self.location(pos) < count);
        let at: usize = self.get_cell_location(pos);
        match &self.cells[at] {
            Cell::Passable => true,
            Cell::Obstacle => false,
            Cell::Temporary(_) => false,
        }
    }

    /// A position on a well-formed grid has its cell among the cells.
    pub proof fn location_in_range(&self, pos: Vector2)
        requires
            self.wf(),
            self.contains(pos),
        ensures
            0 <= self.location(pos) < self.cells@.len(),
    {
        assert(pos.y * self.width + pos.x < self.width * self.height) by (nonlinear_arith)
            requires
                pos.x < self.width,
                pos.y < self.height,
        ;
    }

    /// Adds the position in column `x` and row `y` to `found` if it lies
    /// on the grid and is free to pass.
    fn push_if_open(&self, found: &mut Vec<Vector2>, x: usize, y: usize)
        requires
            self.wf(),
        ensures
            final(found)@ == self.and_if_open(old(found)@, x as int, y as int),
    {
        let pos = Vector2::new(x, y);
        if self.in_bounds(pos) {
            proof {
                self.location_in_range(pos);
            }
            if self.is_passable(pos) {
                found.push(pos);
            }
        }
    }

    /// The positions next to `pos` that lie on the grid and are free to
    /// pass: to the right, below, to the left, above, in this order.
    pub fn neighbors(&self, pos: Vector2) -> (found: Vec<Vector2>)
        requires
            self.wf(),
        ensures
            found@ == self.open_neighbors(pos),
    {
        let mut found: Vec<Vector2> = Vec::new();
        if pos.x < usize::MAX {
            self.push_if_open(&mut found, pos.x + 1, pos.y);
        }
        if pos.y < usize::MAX {
            self.push_if_open(&mut found, pos.x, pos.y + 1);
        }
        if pos.x > 0 {
            self.push_if_open(&mut found, pos.x - 1, pos.y);
        }
        if pos.y > 0 {
            self.push_if_open(&mut found, pos.x, pos.y - 1);
        }
        found
    }

    /// Puts a temporary block on the cell at `pos`. The cell remembers what
    /// it was.
    pub fn set_temporary(&mut self, pos: Vector2)
        requires
            old(self).location(pos) < old(self).cells@.len(),
        ensures
            final(self).width == old(self).width,
            final(self).height == old(self).height,
            final(self).cells@ == blocked_at(old(self).cells@, old(self).width, seq![pos]),
    {
        let count: usize = self.cells.len();
        assert(self.location(pos) < count);
        let at: usize = self.get_cell_location(pos);
        let mut cell = Cell::Passable;
        self.cells.set_and_swap(at, &mut cell);
        self.cells.set(at, Cell::Temporary(Box::new(cell)));
        proof {
            assert(seq![pos].drop_last() == Seq::<Vector2>::empty());
            reveal_with_fuel(blocked_at, 2);
            assert(self.cells@ =~= blocked_at(old(self).cells@, old(self).width, seq![pos]));
        }
    }

    /// Lifts the temporary block from the cell at `pos`: the cell is again
    /// what it was before the block. A cell without a block becomes
    /// passable.
    pub fn clear_temporary_at(&mut self, pos: Vector2)
        requires
            old(self).location(pos) < old(self).cells@.len(),
        ensures
            final(self).width == old(self).width,
            final(self).height == old(self).height,
            final(self).cells@ == lifted_at(old(self).cells@, old(self).width, seq![pos]),
    {
        let count: usize = self.cells.len();
        assert(self.location(pos) < count);
        let at: usize = self.get_cell_location(pos);
        let mut cell = Cell::Passable;
        self.cells.set_and_swap(at, &mut cell);
        if let Cell::Temporary(inner) = cell {
            self.cells.set(at, *inner);
        }
        proof {
            assert(seq![pos].drop_last() == Seq::<Vector2>::empty());
            reveal_with_fuel(lifted_at, 2);
            assert(self.cells@ =~= lifted_at(old(self).cells@, old(self).width, seq![pos]));
        }
    }

    /// Puts a temporary block on the cell at each position in `pos`, first
    /// to last. A cell that is named twice is blocked twice over.
    pub fn add_temporary(&mut self, pos: Vec<Vector2>)
        requires
            forall|i: int|
                0 <= i < pos@.len() ==> old(self).location(#[trigger] pos@[i]) < old(
                    self,
                ).cells@.len(),
        ensures
            final(self).width == old(self).width,
            final(self).height == old(self).height,
            final(self).cells@ == blocked_at(old(self).cells@, old(self).width, pos@),
    {
        let mut i: usize = 0;
        assert(pos@.take(0) == Seq::<Vector2>::empty());
        while i < pos.len()
            invariant
                i <= pos@.len(),
                self.width == old(self).width,
                self.height == old(self).height,
                self.cells@.len() == old(self).cells@.len(),
                forall|j: int|
                    0 <= j < pos@.len() ==> old(self).location(#[trigger] pos@[j]) < old(
                        self,
                    ).cells@.len(),
                self.cells@ == blocked_at(old(self).cells@, old(self).width, pos@.take(i as int)),
            decreases pos@.len() - i,
        {
            let ghost before = self.cells@;
            assert(self.location(pos@[i as int]) == old(self).location(pos@[i as int]));
            self.set_temporary(pos[i]);
            proof {
                let p = pos@[i as int];
                assert(seq![p].drop_last() == Seq::<Vector2>::empty());
                assert(pos@.take(i + 1).drop_last() == pos@.take(i as int));
                reveal_with_fuel(blocked_at, 2);
                assert(blocked_at(before, self.width, seq![p]) == blocked_at(
                    old(self).cells@,
                    old(self).width,
                    pos@.take(i + 1),
                ));
            }
            i += 1;
        }
        assert(pos@.take(pos@.len() as int) == pos@);
    }

    /// Lifts the temporary block from the cell at each position in `pos`,
    /// first to last.
    pub fn clear_temporary(&mut self, pos: Vec<Vector2>)
        requires
            forall|i: int|
                0 <= i < pos@.len() ==> old(self).location(#[trigger] pos@[i]) < old(
                    self,
                ).cells@.len(),
        ensures
            final(self).width == old(self).width,
            final(self).height == old(self).height,
            final(self).cells@ == lifted_at(old(self).cells@, old(self).width, pos@),
    {
        let mut i: usize = 0;
        assert(pos@.take(0) == Seq::<Vector2>::empty());
        while i < pos.len()
            invariant
                i <= pos@.len(),
                self.width == old(self).width,
                self.height == old(self).height,
                self.cells@.len() == old(self).cells@.len(),
                forall|j: int|
                    0 <= j < pos@.len() ==> old(self).location(#[trigger] pos@[j]) < old(
                        self,
                    ).cells@.len(),
                self.cells@ == lifted_at(old(self).cells@, old(self).width, pos@.take(i as int)),
            decreases pos@.len() - i,
        {
            let ghost before = self.cells@;
            assert(self.location(pos@[i as int]) == old(self).location(pos@[i as int]));
            self.clear_temporary_at(pos[i]);
            proof {
                let p = pos@[i as int];
                assert(seq![p].drop_last() == Seq::<Vector2>::empty());
                assert(pos@.take(i + 1).drop_last() == pos@.take(i as int));
                reveal_with_fuel(lifted_at, 2);
                assert(lifted_at(before, self.width, seq![p]) == lifted_at(
                    old(self).cells@,
                    old(self).width,
                    pos@.take(i + 1),
                ));
            }
            i += 1;
        }
        assert(pos@.take(pos@.len() as int) == pos@);
    }

    /// Sweeps every temporary block away: each cell that had one becomes
    /// passable, whatever it was before the block.
    pub fn clear_temporary_all(&mut self)
        ensures
            final(self).width == old(self).width,
            final(self).height == old(self).height,
            final(self).cells@ == old(self).cells@.map_values(|c: Cell| c.swept()),
    {
        let mut i: usize = 0;
        while i < self.cells.len()
            invariant
                self.width == old(self).width,
                self.height == old(self).height,
                self.cells@.len() == old(self).cells@.len(),
                i <= self.cells@.len(),
                forall|j: int| 0 <= j < i ==> self.cells@[j] == old(self).cells@[j].swept(),
                forall|j: int| i <= j < self.cells@.len() ==> self.cells@[j] == old(self).cells@[j],
            decreases self.cells@.len() - i,
        {
            let blocked = match &self.cells[i] {
                Cell::Temporary(_) => true,
                _ => false,
            };
            if blocked {
                self.cells.set(i, Cell::Passable);
            }
            i += 1;
        }
        assert(self.cells@ =~= old(self).cells@.map_values(|c: Cell| c.swept()));
    }

    /// The grid as it is reported to other processes: its size, and the
    /// kind of each cell, row by row.
    pub fn serialize(&self) -> (data: GridData)
        ensures
            data.width == self.width as i32,
            data.height == self.height as i32,
            data.grid@ == self.cells@.map_values(|c: Cell| c.kind()),
    {
        let mut grid: Vec<CellKind> = Vec::new();
        let mut i: usize = 0;
        while i < self.cells.len()
            invariant
                i <= self.cells@.len(),
                grid@ == self.cells@.take(i as int).map_values(|c: Cell| c.kind()),
            decreases self.cells@.len() - i,
        {
            let ghost before = grid@;
            grid.push(self.cells[i].serialize());
            assert(self.cells@.take(i + 1) == self.cells@.take(i as int).push(self.cells@[i as int]));
            assert(grid@ == before.push(self.cells@[i as int].kind()));
            i += 1;
        }
        assert(self.cells@.take(self.cells@.len() as int) == self.cells@);
        GridData { width: self.width as i32, height: self.height as i32, grid }
    }
}

} // verus!
