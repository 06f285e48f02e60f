use vstd::prelude::*;

verus! {

/// The state of one grid cell.
#[derive(Clone, Copy, PartialEq, Eq, Structural, Debug)]
pub enum Cell {
    Wall,
    Path,
    SolvedPath,
}

/// Why a maze could not be built.
#[derive(Clone, Copy, PartialEq, Eq, Structural, Debug)]
pub enum MazeError {
    /// A width or a height of zero.
    InvalidDimensions,
}

/// The mathematical picture of a maze: its size and its cells, row by row
/// (`cells[y][x]` is the cell in column `x` of row `y`).
pub struct MazeModel {
    pub width: nat,
    pub height: nat,
    pub cells: Seq<Seq<Cell>>,
}

impl MazeModel {
    /// The size is positive and the cells form a `height` by `width` rectangle.
    pub open spec fn wf(self) -> bool {
        &&& self.width > 0
        &&& self.height > 0
        &&& self.cells.len() == self.height
        &&& forall|y: int| 0 <= y < self.height ==> #[trigger] self.cells[y].len() == self.width
    }

    pub open spec fn in_bounds(self, p: (int, int)) -> bool {
        0 <= p.0 < self.width && 0 <= p.1 < self.height
    }

    /// The cell at column `p.0`, row `p.1`.
    pub open spec fn at(self, p: (int, int)) -> Cell {
        self.cells[p.1][p.0]
    }

    /// The bottom-right corner, where a solution ends.
    pub open spec fn exit(self) -> (int, int) {
        (self.width - 1, self.height - 1)
    }

    /// Every cell is a wall.
    pub open spec fn all_wall(self) -> bool {
        forall|p: (int, int)| self.in_bounds(p) ==> #[trigger] self.at(p) == Cell::Wall
    }

    /// No cell is marked as part of a solution.
    pub open spec fn unmarked(self) -> bool {
        forall|p: (int, int)| self.in_bounds(p) ==> #[trigger] self.at(p) != Cell::SolvedPath
    }

    /// The same maze with the cell at `p` replaced by `c`.
    pub open spec fn set(self, p: (int, int), c: Cell) -> MazeModel {
        MazeModel {
            width: self.width,
            height: self.height,
            cells: self.cells.update(p.1, self.cells[p.1].update(p.0, c)),
        }
    }
}

pub proof fn lemma_set_at(m: MazeModel, p: (int, int), c: Cell)
    requires
        m.wf(),
        m.in_bounds(p),
    ensures
        m.set(p, c).wf(),
        forall|q: (int, int)|
            m.in_bounds(q) ==> #[trigger] m.set(p, c).at(q) == if q == p {
                c
            } else {
                m.at(q)
            },
{
    assert forall|q: (int, int)| m.in_bounds(q) implies #[trigger] m.set(p, c).at(q) == if q
        == p {
        c
    } else {
        m.at(q)
    } by {
        if q.1 == p.1 {
        } else {
        }
    }
    assert forall|y: int| 0 <= y < m.height implies #[trigger] m.set(p, c).cells[y].len()
        == m.width by {
        if y == p.1 {
        }
    }
}

/// A rectangular maze of cells; every cell starts as a wall.
pub struct Maze {
    width: usize,
    height: usize,
    grid: Vec<Vec<Cell>>,
}

impl View for Maze {
    type V = MazeModel;

    closed spec fn view(&self) -> MazeModel {
        MazeModel {
            width: self.width as nat,
            height: self.height as nat,
            cells: self.grid@.map_values(|row: Vec<Cell>| row@),
        }
    }
}

impl Maze {
    /// The maze is well formed: a non-empty rectangle of cells.
    pub open spec fn wf(&self) -> bool {
        self@.wf()
    }

    /// A `width` by `height` maze of walls; a zero dimension is refused.
    pub fn new(width: usize, height: usize) -> (r: Result<Maze, MazeError>)
        ensures
            r is Err <==> (width == 0 || height == 0),
            r matches Ok(m) ==> {
                &&& m.wf()
                &&& m@.width == width
                &&& m@.height == height
                &&& m@.all_wall()
            },
            r matches Err(e) ==> e == MazeError::InvalidDimensions,
    {
        if width == 0 || height == 0 {
            return Err(MazeError::InvalidDimensions);
        }
        let mut grid: Vec<Vec<Cell>> = Vec::new();
        let mut y: usize = 0;
        while y < height
            invariant
                y <= height,
                grid@.len() == y,
                forall|j: int| 0 <= j < y ==> #[trigger] grid@[j]@.len() == width,
                forall|j: int, i: int|
                    0 <= j < y && 0 <= i < width ==> #[trigger] grid@[j]@[i] == Cell::Wall,
            decreases height - y,
        {
            let mut row: Vec<Cell> = Vec::new();
            let mut x: usize = 0;
            while x < width
                invariant
                    x <= width,
                    row@.len() == x,
                    forall|i: int| 0 <= i < x ==> #[trigger] row@[i] == Cell::Wall,
                decreases width - x,
            {
                row.push(Cell::Wall);
                x = x + 1;
            }
            grid.push(row);
            y = y + 1;
        }
        let m = Maze { width, height, grid };
        assert(m@.all_wall());
        Ok(m)
    }

    /// The number of columns.
    pub fn width(&self) -> (r: usize)
        ensures
            r == self@.width,
    {
        self.width
    }

    /// The number of rows.
    pub fn height(&self) -> (r: usize)
        ensures
            r == self@.height,
    {
        self.height
    }

    /// The cell in column `x` of row `y`.
    pub fn cell(&self, x: usize, y: usize) -> (c: Cell)
        requires
            self.wf(),
            x < self@.width,
            y < self@.height,
        ensures
            c == self@.at((x as int, y as int)),
    {
        self.grid[y][x]
    }

    /// Replaces the cell in column `x` of row `y`.
    pub(crate) fn set_cell(&mut self, x: usize, y: usize, c: Cell)
        requires
            old(self).wf(),
            x < old(self)@.width,
            y < old(self)@.height,
        ensures
            final(self)@ == old(self)@.set((x as int, y as int), c),
            final(self).wf(),
    {
        proof {
            lemma_set_at(self@, (x as int, y as int), c);
        }
        self.grid[y][x] = c;
        assert(self@.cells =~= old(self)@.set((x as int, y as int), c).cells);
    }
}

} // verus!
