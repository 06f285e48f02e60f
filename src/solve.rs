use vstd::prelude::*;
use crate::grid::{Cell, Maze, MazeModel, lemma_set_at};
use crate::walk::{distance, lemma_count_set, lemma_escape_extend, lemma_escape_step, lemma_route_length};

verus! {

impl Maze {
    /// Looks for a way from the top-left corner to the bottom-right one.
    /// On success the cells of the way found are marked `SolvedPath`; on
    /// failure the maze is left as it was.
    pub fn solve(&mut self) -> (r: bool)
        requires
            old(self).wf(),
        ensures
            final(self).wf(),
            r == old(self)@.can_escape((0, 0)),
            r ==> exists|p: Seq<(int, int)>|
                old(self)@.is_escape(p, (0, 0)) && #[trigger] old(self)@.marked_as(
                    final(self)@,
                    p,
                ),
            !r ==> final(self)@ == old(self)@,
    {
        self.solve_recursive(0, 0)
    }

    /// Depth-first search for a way out from column `x` of row `y`, trying
    /// the neighbours in the order right, down, left, up. Cells on the way
    /// being tried are marked `SolvedPath`, and unmarked again when it fails.
    pub fn solve_recursive(&mut self, x: usize, y: usize) -> (r: bool)
        requires
            old(self).wf(),
            x < old(self)@.width,
            y < old(self)@.height,
        ensures
            final(self).wf(),
            r == old(self)@.can_escape((x as int, y as int)),
            r ==> exists|p: Seq<(int, int)>|
                old(self)@.is_escape(p, (x as int, y as int)) && #[trigger] old(self)@.marked_as(
                    final(self)@,
                    p,
                ),
            !r ==> final(self)@ == old(self)@,
        decreases old(self)@.count(Cell::Path),
    {
        let ghost m0 = self@;
        let ghost from = (x as int, y as int);
        let width = self.width();
        let height = self.height();
        if x == width - 1 && y == height - 1 {
            self.set_cell(x, y, Cell::SolvedPath);
            proof {
                lemma_set_at(m0, from, Cell::SolvedPath);
                let p = seq![from];
                assert(m0.is_escape(p, from));
                assert(m0.marked_as(self@, p));
            }
            return true;
        }
        if self.cell(x, y) != Cell::Path {
            proof {
                assert forall|p: Seq<(int, int)>| !#[trigger] m0.is_escape(p, from) by {
                    if m0.is_escape(p, from) {
                        lemma_escape_step(m0, from, p);
                    }
                }
            }
            return false;
        }
        self.set_cell(x, y, Cell::SolvedPath);
        let ghost m1 = self@;
        proof {
            lemma_count_set(m0, from, Cell::SolvedPath, Cell::Path);
        }
        if x + 1 < width {
            if self.solve_recursive(x + 1, y) {
                proof {
                    Self::lemma_found(m0, self@, from, (x + 1, y as int));
                }
                return true;
            }
        }
        if y + 1 < height {
            if self.solve_recursive(x, y + 1) {
                proof {
                    Self::lemma_found(m0, self@, from, (x as int, y + 1));
                }
                return true;
            }
        }
        if x > 0 {
            if self.solve_recursive(x - 1, y) {
                proof {
                    Self::lemma_found(m0, self@, from, (x - 1, y as int));
                }
                return true;
            }
        }
        if y > 0 {
            if self.solve_recursive(x, y - 1) {
                proof {
                    Self::lemma_found(m0, self@, from, (x as int, y - 1));
                }
                return true;
            }
        }
        self.set_cell(x, y, Cell::Path);
        proof {
            lemma_set_at(m1, from, Cell::Path);
            lemma_set_at(m0, from, Cell::SolvedPath);
            assert forall|j: int| 0 <= j < m0.height implies #[trigger] self@.cells[j] =~= m0.cells[j] by {
                assert forall|i: int| 0 <= i < m0.width implies self@.cells[j][i] == m0.cells[j][i] by {
                    assert(self@.at((i, j)) == m0.at((i, j)));
                }
            }
            assert(self@.cells =~= m0.cells);
            assert forall|p: Seq<(int, int)>| !#[trigger] m0.is_escape(p, from) by {
                if m0.is_escape(p, from) {
                    lemma_escape_step(m0, from, p);
                    assert(m1.is_escape(p.subrange(1, p.len() as int), p[1]));
                }
            }
        }
        false
    }

    proof fn lemma_found(m0: MazeModel, after: MazeModel, from: (int, int), n: (int, int))
        requires
            m0.wf(),
            m0.in_bounds(from),
            from != m0.exit(),
            m0.at(from) == Cell::Path,
            crate::walk::adjacent(from, n),
            exists|q: Seq<(int, int)>|
                m0.set(from, Cell::SolvedPath).is_escape(q, n) && #[trigger] m0.set(
                    from,
                    Cell::SolvedPath,
                ).marked_as(after, q),
        ensures
            m0.can_escape(from),
            exists|p: Seq<(int, int)>|
                m0.is_escape(p, from) && #[trigger] m0.marked_as(after, p),
    {
        let m1 = m0.set(from, Cell::SolvedPath);
        let q = choose|q: Seq<(int, int)>| m1.is_escape(q, n) && #[trigger] m1.marked_as(after, q);
        lemma_escape_extend(m0, after, from, q);
        let p = seq![from] + q;
        assert(m0.is_escape(p, from));
        assert(m0.marked_as(after, p));
    }
}

/// What a successful solve leaves on an unmarked maze: the `SolvedPath`
/// cells are exactly the cells of one route from corner to corner that
/// visits no cell twice, and there are at least as many of them as the
/// corners are steps apart, plus one.
pub proof fn lemma_solution_shape(m: MazeModel, after: MazeModel, p: Seq<(int, int)>)
    requires
        m.wf(),
        m.unmarked(),
        m.is_escape(p, (0, 0)),
        m.marked_as(after, p),
    ensures
        forall|q: (int, int)|
            m.in_bounds(q) ==> (#[trigger] after.at(q) == Cell::SolvedPath <==> p.contains(q)),
        p[0] == (0int, 0int),
        p.last() == m.exit(),
        p.no_duplicates(),
        forall|i: int| 0 <= i < p.len() - 1 ==> crate::walk::adjacent(#[trigger] p[i], p[i + 1]),
        p.len() >= distance((0, 0), m.exit()) + 1,
        p.len() >= m.width + m.height - 1,
{
    lemma_route_length(m, p);
}

/// Solving a second time: the first solve marked the entrance, so no way out
/// is left and the maze stays as it is, unless the maze is a single cell,
/// whose one cell is both entrance and exit.
pub proof fn lemma_solve_again(m: MazeModel, after: MazeModel, p: Seq<(int, int)>)
    requires
        m.wf(),
        m.is_escape(p, (0, 0)),
        m.marked_as(after, p),
    ensures
        after.can_escape((0, 0)) <==> (m.width == 1 && m.height == 1),
{
    if m.width == 1 && m.height == 1 {
        let q = seq![(0int, 0int)];
        assert(after.is_escape(q, (0, 0)));
    } else {
        assert(p[0] == (0int, 0int));
        assert(after.at((0, 0)) == Cell::SolvedPath);
        assert forall|q: Seq<(int, int)>| !#[trigger] after.is_escape(q, (0, 0)) by {
            if after.is_escape(q, (0, 0)) {
                assert(q.len() >= 2);
                assert(after.at(q[0]) == Cell::Path);
            }
        }
    }
}

} // verus!
