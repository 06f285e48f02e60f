use vstd::prelude::*;
use crate::grid::{Cell, MazeModel, lemma_set_at};

verus! {

/// Two cells share a side.
pub open spec fn adjacent(a: (int, int), b: (int, int)) -> bool {
    ||| (a.1 == b.1 && (a.0 == b.0 + 1 || b.0 == a.0 + 1))
    ||| (a.0 == b.0 && (a.1 == b.1 + 1 || b.1 == a.1 + 1))
}

/// The number of steps along rows and columns from `a` to `b`.
pub open spec fn distance(a: (int, int), b: (int, int)) -> int {
    (if a.0 >= b.0 {
        a.0 - b.0
    } else {
        b.0 - a.0
    }) + (if a.1 >= b.1 {
        a.1 - b.1
    } else {
        b.1 - a.1
    })
}

/// How many cells of a row hold `c`.
pub open spec fn count_row(row: Seq<Cell>, c: Cell) -> nat
    decreases row.len(),
{
    if row.len() == 0 {
        0
    } else {
        count_row(row.drop_last(), c) + if row.last() == c {
            1nat
        } else {
            0nat
        }
    }
}

/// How many cells of a list of rows hold `c`.
pub open spec fn count_rows(rows: Seq<Seq<Cell>>, c: Cell) -> nat
    decreases rows.len(),
{
    if rows.len() == 0 {
        0
    } else {
        count_rows(rows.drop_last(), c) + count_row(rows.last(), c)
    }
}

impl MazeModel {
    /// A non-empty sequence of cells inside the maze, each sharing a side with the next.
    pub open spec fn is_route(self, p: Seq<(int, int)>) -> bool {
        &&& p.len() > 0
        &&& forall|i: int| 0 <= i < p.len() ==> self.in_bounds(#[trigger] p[i])
        &&& forall|i: int| 0 <= i < p.len() - 1 ==> adjacent(#[trigger] p[i], p[i + 1])
    }

    /// A route that stays on `Path` cells.
    pub open spec fn is_path_route(self, p: Seq<(int, int)>) -> bool {
        &&& self.is_route(p)
        &&& forall|i: int| 0 <= i < p.len() ==> self.at(#[trigger] p[i]) == Cell::Path
    }

    /// `a` and `b` are joined by a route over `Path` cells.
    pub open spec fn connected(self, a: (int, int), b: (int, int)) -> bool {
        exists|p: Seq<(int, int)>| #[trigger] self.is_path_route(p) && p[0] == a && p.last() == b
    }

    /// A way out from `from`: a route without repeated cells that ends at the
    /// exit, every cell of which but the last is `Path`.
    pub open spec fn is_escape(self, p: Seq<(int, int)>, from: (int, int)) -> bool {
        &&& self.is_route(p)
        &&& p[0] == from
        &&& p.last() == self.exit()
        &&& p.no_duplicates()
        &&& forall|i: int| 0 <= i < p.len() - 1 ==> self.at(#[trigger] p[i]) == Cell::Path
    }

    /// There is a way out from `from`.
    pub open spec fn can_escape(self, from: (int, int)) -> bool {
        exists|p: Seq<(int, int)>| #[trigger] self.is_escape(p, from)
    }

    /// `after` is this maze with exactly the cells of `p` marked `SolvedPath`.
    pub open spec fn marked_as(self, after: MazeModel, p: Seq<(int, int)>) -> bool {
        &&& after.wf()
        &&& after.width == self.width
        &&& after.height == self.height
        &&& forall|q: (int, int)|
            self.in_bounds(q) ==> #[trigger] after.at(q) == if p.contains(q) {
                Cell::SolvedPath
            } else {
                self.at(q)
            }
    }

    /// How many cells hold `c`.
    pub open spec fn count(self, c: Cell) -> nat {
        count_rows(self.cells, c)
    }
}

proof fn lemma_count_row_update(row: Seq<Cell>, i: int, v: Cell, c: Cell)
    requires
        0 <= i < row.len(),
    ensures
        count_row(row.update(i, v), c) + (if row[i] == c {
            1nat
        } else {
            0nat
        }) == count_row(row, c) + (if v == c {
            1nat
        } else {
            0nat
        }),
    decreases row.len(),
{
    if i == row.len() - 1 {
        assert(row.update(i, v).drop_last() =~= row.drop_last());
    } else {
        lemma_count_row_update(row.drop_last(), i, v, c);
        assert(row.update(i, v).drop_last() =~= row.drop_last().update(i, v));
    }
}

proof fn lemma_count_rows_update(rows: Seq<Seq<Cell>>, j: int, row: Seq<Cell>, c: Cell)
    requires
        0 <= j < rows.len(),
    ensures
        count_rows(rows.update(j, row), c) + count_row(rows[j], c) == count_rows(rows, c)
            + count_row(row, c),
    decreases rows.len(),
{
    if j == rows.len() - 1 {
        assert(rows.update(j, row).drop_last() =~= rows.drop_last());
    } else {
        lemma_count_rows_update(rows.drop_last(), j, row, c);
        assert(rows.update(j, row).drop_last() =~= rows.drop_last().update(j, row));
    }
}

/// Replacing one cell changes the count of `c` by what left and what came.
pub proof fn lemma_count_set(m: MazeModel, p: (int, int), v: Cell, c: Cell)
    requires
        m.wf(),
        m.in_bounds(p),
    ensures
        m.set(p, v).count(c) + (if m.at(p) == c {
            1nat
        } else {
            0nat
        }) == m.count(c) + (if v == c {
            1nat
        } else {
            0nat
        }),
{
    lemma_count_row_update(m.cells[p.1], p.0, v, c);
    lemma_count_rows_update(m.cells, p.1, m.cells[p.1].update(p.0, v), c);
}

/// A way out from a `Path` cell other than the exit leaves it for a
/// neighbour, and goes on from there without coming back.
pub proof fn lemma_escape_step(m: MazeModel, from: (int, int), p: Seq<(int, int)>)
    requires
        m.wf(),
        m.is_escape(p, from),
        from != m.exit(),
    ensures
        p.len() >= 2,
        adjacent(from, p[1]),
        m.in_bounds(p[1]),
        m.at(from) == Cell::Path,
        m.set(from, Cell::SolvedPath).is_escape(p.subrange(1, p.len() as int), p[1]),
{
    let m1 = m.set(from, Cell::SolvedPath);
    let q = p.subrange(1, p.len() as int);
    assert(p.len() >= 2);
    assert(m.in_bounds(p[0]));
    lemma_set_at(m, from, Cell::SolvedPath);
    assert forall|i: int| 0 <= i < q.len() implies m1.in_bounds(#[trigger] q[i]) by {
        assert(q[i] == p[i + 1]);
    }
    assert forall|i: int| 0 <= i < q.len() - 1 implies adjacent(#[trigger] q[i], q[i + 1]) by {
        assert(q[i] == p[i + 1]);
    }
    assert forall|i: int| 0 <= i < q.len() - 1 implies m1.at(#[trigger] q[i]) == Cell::Path by {
        assert(q[i] == p[i + 1]);
        assert(p[0] != p[i + 1]);
        assert(m.in_bounds(p[i + 1]));
    }
    assert(q.no_duplicates()) by {
        assert forall|i: int, j: int| 0 <= i < q.len() && 0 <= j < q.len() && i != j implies q[i]
            != q[j] by {
            assert(q[i] == p[i + 1] && q[j] == p[j + 1]);
        }
    }
}

/// A way out from a neighbour, found with `from` marked, extends to one from
/// `from`; marking it marks the longer one.
pub proof fn lemma_escape_extend(
    m: MazeModel,
    after: MazeModel,
    from: (int, int),
    q: Seq<(int, int)>,
)
    requires
        m.wf(),
        m.in_bounds(from),
        from != m.exit(),
        m.at(from) == Cell::Path,
        q.len() > 0,
        adjacent(from, q[0]),
        m.set(from, Cell::SolvedPath).is_escape(q, q[0]),
        m.set(from, Cell::SolvedPath).marked_as(after, q),
    ensures
        m.is_escape(seq![from] + q, from),
        m.marked_as(after, seq![from] + q),
{
    let m1 = m.set(from, Cell::SolvedPath);
    let p = seq![from] + q;
    lemma_set_at(m, from, Cell::SolvedPath);
    assert forall|i: int| 0 <= i < q.len() implies #[trigger] q[i] != from by {
        if i < q.len() - 1 {
            assert(m1.at(q[i]) == Cell::Path);
        } else {
            assert(q[i] == q.last());
        }
    }
    assert forall|i: int| 0 <= i < p.len() implies m.in_bounds(#[trigger] p[i]) by {
        if i > 0 {
            assert(p[i] == q[i - 1]);
        }
    }
    assert forall|i: int| 0 <= i < p.len() - 1 implies adjacent(#[trigger] p[i], p[i + 1]) by {
        if i > 0 {
            assert(p[i] == q[i - 1]);
        }
    }
    assert forall|i: int| 0 <= i < p.len() - 1 implies m.at(#[trigger] p[i]) == Cell::Path by {
        if i > 0 {
            assert(p[i] == q[i - 1]);
            assert(m1.at(q[i - 1]) == Cell::Path);
        }
    }
    assert(p.no_duplicates()) by {
        assert forall|i: int, j: int| 0 <= i < p.len() && 0 <= j < p.len() && i != j implies p[i]
            != p[j] by {
            if i > 0 && j > 0 {
                assert(p[i] == q[i - 1] && p[j] == q[j - 1]);
            } else if i > 0 {
                assert(p[i] == q[i - 1]);
            } else {
                assert(p[j] == q[j - 1]);
            }
        }
    }
    assert(p.last() == q.last());
    assert forall|c: (int, int)| m.in_bounds(c) implies #[trigger] after.at(c) == if p.contains(
        c,
    ) {
        Cell::SolvedPath
    } else {
        m.at(c)
    } by {
        if c == from {
            assert(p[0] == c);
        } else if q.contains(c) {
            let k = choose|k: int| 0 <= k < q.len() && q[k] == c;
            assert(p[k + 1] == c);
        } else {
            assert forall|k: int| 0 <= k < p.len() implies p[k] != c by {
                if k > 0 {
                    assert(p[k] == q[k - 1]);
                }
            }
        }
    }
}

/// A route over `Path` cells, walked backwards, is one too.
proof fn lemma_route_reverse(m: MazeModel, p: Seq<(int, int)>) -> (r: Seq<(int, int)>)
    requires
        m.is_path_route(p),
    ensures
        m.is_path_route(r),
        r[0] == p.last(),
        r.last() == p[0],
{
    let r = Seq::new(p.len(), |i: int| p[p.len() - 1 - i]);
    assert forall|i: int| 0 <= i < r.len() implies m.in_bounds(#[trigger] r[i]) && m.at(r[i])
        == Cell::Path by {
        assert(r[i] == p[p.len() - 1 - i]);
    }
    assert forall|i: int| 0 <= i < r.len() - 1 implies adjacent(#[trigger] r[i], r[i + 1]) by {
        assert(adjacent(p[p.len() - 2 - i], p[p.len() - 2 - i + 1]));
    }
    r
}

/// Two routes over `Path` cells, the second starting where the first ends,
/// join into one.
proof fn lemma_route_join(m: MazeModel, p: Seq<(int, int)>, q: Seq<(int, int)>) -> (r: Seq<(int, int)>)
    requires
        m.is_path_route(p),
        m.is_path_route(q),
        p.last() == q[0],
    ensures
        m.is_path_route(r),
        r[0] == p[0],
        r.last() == q.last(),
{
    let r = p + q.subrange(1, q.len() as int);
    assert forall|i: int| 0 <= i < r.len() implies m.in_bounds(#[trigger] r[i]) && m.at(r[i])
        == Cell::Path by {
        if i >= p.len() {
            assert(r[i] == q[i - p.len() + 1]);
        }
    }
    assert forall|i: int| 0 <= i < r.len() - 1 implies adjacent(#[trigger] r[i], r[i + 1]) by {
        if i >= p.len() {
            assert(r[i] == q[i - p.len() + 1]);
            assert(r[i + 1] == q[i - p.len() + 2]);
        } else if i == p.len() - 1 {
            assert(r[i + 1] == q[1]);
        }
    }
    if q.len() == 1 {
        assert(r.last() == p.last());
    } else {
        assert(r.last() == q[q.len() - 1]);
    }
    r
}

/// If every `Path` cell is joined to the entrance over `Path` cells, then
/// any two `Path` cells are joined to each other: the `Path` cells form one
/// connected region.
pub proof fn lemma_path_cells_connected(m: MazeModel, a: (int, int), b: (int, int))
    requires
        m.wf(),
        forall|p: (int, int)|
            m.in_bounds(p) && #[trigger] m.at(p) == Cell::Path ==> m.connected((0, 0), p),
        m.in_bounds(a),
        m.in_bounds(b),
        m.at(a) == Cell::Path,
        m.at(b) == Cell::Path,
    ensures
        m.connected(a, b),
{
    assert(m.connected((0, 0), a));
    assert(m.connected((0, 0), b));
    let pa = choose|p: Seq<(int, int)>| #[trigger] m.is_path_route(p) && p[0] == (0int, 0int) && p.last() == a;
    let pb = choose|p: Seq<(int, int)>| #[trigger] m.is_path_route(p) && p[0] == (0int, 0int) && p.last() == b;
    let back = lemma_route_reverse(m, pa);
    let r = lemma_route_join(m, back, pb);
    assert(m.is_path_route(r));
}

/// Cutting out the loop between two visits of one cell leaves a shorter
/// route with the same ends.
proof fn lemma_route_cut(m: MazeModel, p: Seq<(int, int)>, i: int, j: int) -> (q: Seq<(int, int)>)
    requires
        m.is_path_route(p),
        0 <= i < j < p.len(),
        p[i] == p[j],
    ensures
        m.is_path_route(q),
        q.len() < p.len(),
        q[0] == p[0],
        q.last() == p.last(),
{
    let q = p.subrange(0, i) + p.subrange(j, p.len() as int);
    assert(q.len() == i + p.len() - j);
    assert forall|k: int| 0 <= k < q.len() implies #[trigger] q[k] == if k < i {
        p[k]
    } else {
        p[k - i + j]
    } by {}
    assert forall|k: int| 0 <= k < q.len() implies m.in_bounds(#[trigger] q[k]) && m.at(q[k])
        == Cell::Path by {
        if k >= i {
            assert(q[k] == p[k - i + j]);
        } else {
            assert(q[k] == p[k]);
        }
    }
    assert forall|k: int| 0 <= k < q.len() - 1 implies adjacent(#[trigger] q[k], q[k + 1]) by {
        if k >= i {
            assert(q[k] == p[k - i + j]);
            assert(q[k + 1] == p[k - i + j + 1]);
        } else if k == i - 1 {
            assert(q[k] == p[k]);
            assert(q[k + 1] == p[j]);
            assert(adjacent(p[i - 1], p[i]));
        } else {
            assert(q[k] == p[k]);
            assert(q[k + 1] == p[k + 1]);
        }
    }
    if i == 0 {
        assert(q[0] == p[j]);
    } else {
        assert(q[0] == p[0]);
    }
    assert(q[q.len() - 1] == p[p.len() - 1]);
    q
}

/// A route over `Path` cells can be cut down to one that repeats no cell.
proof fn lemma_route_shorten(m: MazeModel, p: Seq<(int, int)>) -> (r: Seq<(int, int)>)
    requires
        m.is_path_route(p),
    ensures
        m.is_path_route(r),
        r.no_duplicates(),
        r[0] == p[0],
        r.last() == p.last(),
    decreases p.len(),
{
    if p.no_duplicates() {
        p
    } else {
        let (i0, j0) = choose|i: int, j: int|
            0 <= i < p.len() && 0 <= j < p.len() && i != j && #[trigger] p[i] == #[trigger] p[j];
        let q = if i0 < j0 {
            lemma_route_cut(m, p, i0, j0)
        } else {
            lemma_route_cut(m, p, j0, i0)
        };
        lemma_route_shorten(m, q)
    }
}

/// In a maze whose `Path` cells are all joined to the entrance and whose
/// exit is `Path`, there is a way out from the entrance.
pub proof fn lemma_joined_exit_escapes(m: MazeModel)
    requires
        m.wf(),
        forall|p: (int, int)|
            m.in_bounds(p) && #[trigger] m.at(p) == Cell::Path ==> m.connected((0, 0), p),
        m.at(m.exit()) == Cell::Path,
    ensures
        m.can_escape((0, 0)),
{
    assert(m.connected((0, 0), m.exit()));
    let p = choose|p: Seq<(int, int)>| #[trigger] m.is_path_route(p) && p[0] == (0int, 0int) && p.last() == m.exit();
    let r = lemma_route_shorten(m, p);
    assert(m.is_escape(r, (0, 0)));
}

/// A route is at least as long as the distance, along rows and columns,
/// between its ends.
pub proof fn lemma_route_length(m: MazeModel, p: Seq<(int, int)>)
    requires
        m.is_route(p),
    ensures
        distance(p[0], p.last()) <= p.len() - 1,
    decreases p.len(),
{
    if p.len() > 1 {
        let q = p.drop_last();
        assert forall|i: int| 0 <= i < q.len() implies m.in_bounds(#[trigger] q[i]) by {
            assert(q[i] == p[i]);
        }
        assert forall|i: int| 0 <= i < q.len() - 1 implies adjacent(#[trigger] q[i], q[i + 1]) by {
            assert(q[i] == p[i] && q[i + 1] == p[i + 1]);
        }
        lemma_route_length(m, q);
        assert(adjacent(p[p.len() - 2], p[p.len() - 1]));
    }
}

} // verus!
