use vstd::prelude::*;
use rand::rngs::StdRng;
use rand::seq::SliceRandom;
use rand::SeedableRng;
use crate::grid::{Cell, Maze, MazeModel, lemma_set_at};
use crate::walk::{adjacent, lemma_count_set};

verus! {

/// rand's `StdRng`, carried by a `Picker` and only ever handed back to rand.
#[verifier::external_type_specification]
#[verifier::external_body]
pub struct ExStdRng(rand::rngs::StdRng);

/// Relies on rand's `SeedableRng::seed_from_u64`: a generator whose
/// output depends on the seed alone.
#[verifier::external_body]
fn seeded_rng(seed: u64) -> StdRng {
    StdRng::seed_from_u64(seed)
}

/// Relies on rand's `SliceRandom::choose`: on a non-empty slice it returns
/// one of its elements.
#[verifier::external_body]
fn choose_neighbor(neighbors: &Vec<(usize, usize)>, rng: &mut StdRng) -> (r: (usize, usize))
    requires
        neighbors@.len() > 0,
    ensures
        neighbors@.contains(r),
{
    *neighbors.choose(rng).unwrap()
}

/// Decides which unvisited neighbour the carving goes to next: one drawn
/// from a random generator, or always the first candidate.
pub struct Picker {
    rng: StdRng,
    first_only: bool,
}

impl Picker {
    /// Draws from `rng`.
    pub fn from_rng(rng: StdRng) -> (r: Picker)
        ensures
            !r.takes_first(),
    {
        Picker { rng, first_only: false }
    }

    /// Draws from a generator seeded with `seed`, so that the same seed
    /// carves the same maze.
    pub fn seeded(seed: u64) -> (r: Picker)
        ensures
            !r.takes_first(),
    {
        Picker { rng: seeded_rng(seed), first_only: false }
    }

    /// Always takes the first candidate, which makes carving deterministic.
    pub fn first_candidate() -> (r: Picker)
        ensures
            r.takes_first(),
    {
        Picker { rng: seeded_rng(0), first_only: true }
    }

    /// Whether this picker always takes the first candidate.
    pub closed spec fn takes_first(&self) -> bool {
        self.first_only
    }

    fn pick(&mut self, neighbors: &Vec<(usize, usize)>) -> (r: (usize, usize))
        requires
            neighbors@.len() > 0,
        ensures
            neighbors@.contains(r),
            old(self).takes_first() ==> r == neighbors@[0],
            final(self).takes_first() == old(self).takes_first(),
    {
        if self.first_only {
            neighbors[0]
        } else {
            choose_neighbor(neighbors, &mut self.rng)
        }
    }
}

/// A room: a cell at an even column of an even row.
pub open spec fn is_room(p: (int, int)) -> bool {
    p.0 % 2 == 0 && p.1 % 2 == 0
}

/// A corridor: a cell with exactly one odd coordinate, between two rooms.
pub open spec fn is_corridor(p: (int, int)) -> bool {
    (p.0 % 2 == 0) != (p.1 % 2 == 0)
}

/// `b` is two steps from `a` along a row or a column.
pub open spec fn room_step(a: (int, int), b: (int, int)) -> bool {
    ||| (a.1 == b.1 && (b.0 == a.0 + 2 || a.0 == b.0 + 2))
    ||| (a.0 == b.0 && (b.1 == a.1 + 2 || a.1 == b.1 + 2))
}

spec fn point(p: (usize, usize)) -> (int, int) {
    (p.0 as int, p.1 as int)
}

spec fn on_stack(s: Seq<(usize, usize)>, r: (int, int)) -> bool {
    exists|i: int| 0 <= i < s.len() && #[trigger] point(s[i]) == r
}

/// Every `Path` cell of `old` is `Path` in `new`, so routes over `Path` cells survive.
proof fn lemma_connected_grows(old: MazeModel, new: MazeModel)
    requires
        old.wf(),
        new.wf(),
        new.width == old.width,
        new.height == old.height,
        forall|q: (int, int)| old.in_bounds(q) && old.at(q) == Cell::Path ==> #[trigger] new.at(q) == Cell::Path,
    ensures
        forall|a: (int, int), b: (int, int)| #[trigger] old.connected(a, b) ==> new.connected(a, b),
{
    assert forall|a: (int, int), b: (int, int)| #[trigger] old.connected(a, b) implies new.connected(a, b) by {
        let p = choose|p: Seq<(int, int)>| #[trigger] old.is_path_route(p) && p[0] == a && p.last() == b;
        assert forall|i: int| 0 <= i < p.len() implies new.at(#[trigger] p[i]) == Cell::Path by {
            assert(old.in_bounds(p[i]));
        }
        assert(new.is_path_route(p));
    }
}

/// A route to `b` extends to a `Path` neighbour `c` of `b`.
proof fn lemma_connected_extend(m: MazeModel, a: (int, int), b: (int, int), c: (int, int))
    requires
        m.connected(a, b),
        adjacent(b, c),
        m.in_bounds(c),
        m.at(c) == Cell::Path,
    ensures
        m.connected(a, c),
{
    let p = choose|p: Seq<(int, int)>| #[trigger] m.is_path_route(p) && p[0] == a && p.last() == b;
    let q = p.push(c);
    assert forall|i: int| 0 <= i < q.len() - 1 implies adjacent(#[trigger] q[i], q[i + 1]) by {
        if i < p.len() - 1 {
            assert(q[i] == p[i] && q[i + 1] == p[i + 1]);
        } else {
            assert(q[i] == b);
        }
    }
    assert(m.is_path_route(q));
    assert(q[0] == a && q.last() == c);
}

/// Once no room on the `Path` has a wall two steps away, every room is `Path`.
proof fn lemma_rooms_reached(m: MazeModel, x: int, y: int)
    requires
        m.wf(),
        m.unmarked(),
        m.at((0, 0)) == Cell::Path,
        forall|r: (int, int), n: (int, int)|
            m.in_bounds(r) && is_room(r) && m.at(r) == Cell::Path && m.in_bounds(n)
                && #[trigger] room_step(r, n) ==> m.at(n) != Cell::Wall,
        0 <= x < m.width,
        0 <= y < m.height,
        is_room((x, y)),
    ensures
        m.at((x, y)) == Cell::Path,
    decreases x + y,
{
    if x >= 2 {
        lemma_rooms_reached(m, x - 2, y);
        assert(room_step((x - 2, y), (x, y)));
    } else if y >= 2 {
        lemma_rooms_reached(m, x, y - 2);
        assert(room_step((x, y - 2), (x, y)));
    }
}

/// Each `Path` room with a wall two steps away is still on the stack.
spec fn settled(m: MazeModel, s: Seq<(usize, usize)>) -> bool {
    forall|r: (int, int), n: (int, int)|
        m.in_bounds(r) && is_room(r) && m.at(r) == Cell::Path && m.in_bounds(n)
            && #[trigger] room_step(r, n) && m.at(n) == Cell::Wall ==> on_stack(s, r)
}

/// What holds of the maze and the stack between two steps of the carving.
#[verifier::opaque]
spec fn carving(m: MazeModel, s: Seq<(usize, usize)>) -> bool {
    &&& m.wf()
    &&& m.unmarked()
    &&& m.at((0, 0)) == Cell::Path
    &&& forall|i: int|
        0 <= i < s.len() ==> m.in_bounds(point(#[trigger] s[i])) && is_room(point(s[i])) && m.at(
            point(s[i]),
        ) == Cell::Path
    &&& forall|p: (int, int)|
        m.in_bounds(p) && #[trigger] m.at(p) == Cell::Path ==> is_room(p) || is_corridor(p)
    &&& forall|p: (int, int)|
        m.in_bounds(p) && #[trigger] m.at(p) == Cell::Path ==> m.connected((0, 0), p)
    &&& settled(m, s)
}

/// The room on top of the stack lies inside the maze.
proof fn lemma_top(m: MazeModel, s: Seq<(usize, usize)>)
    requires
        carving(m, s),
        s.len() > 0,
    ensures
        m.wf(),
        m.in_bounds(point(s.last())),
        is_room(point(s.last())),
{
    reveal(carving);
    assert(m.in_bounds(point(s[s.len() - 1])));
}

/// Halfway between a room and a room two steps away lies a corridor, next
/// to both.
proof fn lemma_mid(m: MazeModel, cur: (int, int), next: (int, int))
    requires
        m.in_bounds(cur),
        m.in_bounds(next),
        is_room(cur),
        room_step(cur, next),
    ensures
        m.in_bounds((cur.0 / 2 + next.0 / 2, cur.1 / 2 + next.1 / 2)),
        adjacent(cur, (cur.0 / 2 + next.0 / 2, cur.1 / 2 + next.1 / 2)),
        adjacent((cur.0 / 2 + next.0 / 2, cur.1 / 2 + next.1 / 2), next),
        is_corridor((cur.0 / 2 + next.0 / 2, cur.1 / 2 + next.1 / 2)),
{
}

/// Carving the corridor `mid` and the room `next` from `cur`, and pushing
/// `next`, keeps the carving's invariant and uses up a wall.
proof fn lemma_carve(
    m1: MazeModel,
    s0: Seq<(usize, usize)>,
    cur: (int, int),
    mid: (int, int),
    next: (int, int),
    nxt: (usize, usize),
)
    requires
        carving(m1, s0),
        s0.len() > 0,
        point(s0.last()) == cur,
        point(nxt) == next,
        m1.in_bounds(next),
        room_step(cur, next),
        m1.at(next) == Cell::Wall,
        mid == (cur.0 / 2 + next.0 / 2, cur.1 / 2 + next.1 / 2),
    ensures
        carving(m1.set(mid, Cell::Path).set(next, Cell::Path), s0.push(nxt)),
        m1.set(mid, Cell::Path).set(next, Cell::Path).count(Cell::Wall) < m1.count(Cell::Wall),
{
    reveal(carving);
    lemma_top(m1, s0);
    lemma_mid(m1, cur, next);
    let m2 = m1.set(mid, Cell::Path);
    let m3 = m2.set(next, Cell::Path);
    let s = s0.push(nxt);
    assert(m1.in_bounds(point(s0[s0.len() - 1])));
    assert(m1.in_bounds(mid));
    lemma_set_at(m1, mid, Cell::Path);
    lemma_set_at(m2, next, Cell::Path);
    lemma_count_set(m1, mid, Cell::Path, Cell::Wall);
    lemma_count_set(m2, next, Cell::Path, Cell::Wall);
    lemma_connected_grows(m1, m3);
    assert(m1.at(cur) == Cell::Path);
    assert(m3.connected((0, 0), cur));
    lemma_connected_extend(m3, (0, 0), cur, mid);
    lemma_connected_extend(m3, (0, 0), mid, next);
    assert(point(s[s.len() - 1]) == next);
    assert forall|r: (int, int), n: (int, int)|
        m3.in_bounds(r) && is_room(r) && m3.at(r) == Cell::Path && m3.in_bounds(n)
            && #[trigger] room_step(r, n) && m3.at(n) == Cell::Wall implies on_stack(s, r) by {
        if r != next {
            assert(m1.at(r) == Cell::Path);
            assert(m1.at(n) == Cell::Wall);
            assert(on_stack(s0, r));
            let i = choose|i: int| 0 <= i < s0.len() && #[trigger] point(s0[i]) == r;
            assert(point(s[i]) == r);
        }
    }
    assert forall|i: int| 0 <= i < s.len() implies m3.in_bounds(point(#[trigger] s[i])) && is_room(
        point(s[i]),
    ) && m3.at(point(s[i])) == Cell::Path by {
        if i < s0.len() {
            assert(s[i] == s0[i]);
        }
    }
    assert forall|p: (int, int)| m3.in_bounds(p) && #[trigger] m3.at(p) == Cell::Path implies is_room(
        p,
    ) || is_corridor(p) by {
        if p != mid && p != next {
            assert(m1.at(p) == Cell::Path);
        }
    }
    assert forall|p: (int, int)| m3.in_bounds(p) && #[trigger] m3.at(p) == Cell::Path implies m3.connected(
        (0, 0),
        p,
    ) by {
        if p != mid && p != next {
            assert(m1.at(p) == Cell::Path);
        }
    }
}

/// Dropping the top room once no wall is left two steps around it keeps the
/// carving's invariant.
proof fn lemma_backtrack(m: MazeModel, s0: Seq<(usize, usize)>, cur: (int, int))
    requires
        carving(m, s0),
        s0.len() > 0,
        point(s0.last()) == cur,
        forall|n: (int, int)| m.in_bounds(n) && #[trigger] room_step(cur, n) ==> m.at(n) != Cell::Wall,
    ensures
        carving(m, s0.drop_last()),
{
    reveal(carving);
    let s = s0.drop_last();
    assert forall|r: (int, int), n: (int, int)|
        m.in_bounds(r) && is_room(r) && m.at(r) == Cell::Path && m.in_bounds(n)
            && #[trigger] room_step(r, n) && m.at(n) == Cell::Wall implies on_stack(s, r) by {
        assert(on_stack(s0, r));
        let i = choose|i: int| 0 <= i < s0.len() && #[trigger] point(s0[i]) == r;
        if i == s0.len() - 1 {
            assert(r == cur);
        } else {
            assert(point(s[i]) == r);
        }
    }
    assert forall|i: int| 0 <= i < s.len() implies m.in_bounds(point(#[trigger] s[i])) && is_room(
        point(s[i]),
    ) && m.at(point(s[i])) == Cell::Path by {
        assert(s[i] == s0[i]);
    }
}

impl Maze {
    /// The rooms two steps from column `x` of row `y` that are still walls,
    /// in the order left, right, up, down.
    fn unvisited_around(&self, x: usize, y: usize) -> (r: Vec<(usize, usize)>)
        requires
            self.wf(),
            x < self@.width,
            y < self@.height,
        ensures
            forall|k: int|
                0 <= k < r@.len() ==> {
                    let n = point(#[trigger] r@[k]);
                    &&& self@.in_bounds(n)
                    &&& room_step((x as int, y as int), n)
                    &&& self@.at(n) == Cell::Wall
                },
            r@.len() == 0 ==> forall|n: (int, int)|
                self@.in_bounds(n) && #[trigger] room_step((x as int, y as int), n) ==> self@.at(n)
                    != Cell::Wall,
    {
        let width = self.width();
        let height = self.height();
        let mut neighbors: Vec<(usize, usize)> = Vec::new();
        if x > 1 && self.cell(x - 2, y) == Cell::Wall {
            neighbors.push((x - 2, y));
        }
        if width - x > 2 && self.cell(x + 2, y) == Cell::Wall {
            neighbors.push((x + 2, y));
        }
        if y > 1 && self.cell(x, y - 2) == Cell::Wall {
            neighbors.push((x, y - 2));
        }
        if height - y > 2 && self.cell(x, y + 2) == Cell::Wall {
            neighbors.push((x, y + 2));
        }
        neighbors
    }

    /// Carves a maze into a maze of walls: a depth-first walk over the rooms,
    /// from the top-left corner, opens the corridor to an unvisited room
    /// chosen by `picker` and moves there, and backs up when no unvisited room
    /// is left around. Both corners are then opened.
    ///
    /// Afterwards every room is `Path`, every `Path` cell is a room, a
    /// corridor or the exit, and every `Path` cell but the exit is joined to
    /// the entrance over `Path` cells; so is the exit when both dimensions are
    /// odd.
    pub fn generate(&mut self, picker: &mut Picker)
        requires
            old(self).wf(),
            old(self)@.all_wall(),
        ensures
            final(self).wf(),
            final(self)@.width == old(self)@.width,
            final(self)@.height == old(self)@.height,
            final(self)@.unmarked(),
            final(self)@.at((0, 0)) == Cell::Path,
            final(self)@.at(final(self)@.exit()) == Cell::Path,
            forall|p: (int, int)|
                final(self)@.in_bounds(p) && is_room(p) ==> #[trigger] final(self)@.at(p)
                    == Cell::Path,
            forall|p: (int, int)|
                final(self)@.in_bounds(p) && #[trigger] final(self)@.at(p) == Cell::Path ==> is_room(p)
                    || is_corridor(p) || p == final(self)@.exit(),
            forall|p: (int, int)|
                final(self)@.in_bounds(p) && #[trigger] final(self)@.at(p) == Cell::Path && p
                    != final(self)@.exit() ==> final(self)@.connected((0, 0), p),
            final(self)@.width % 2 == 1 && final(self)@.height % 2 == 1 ==> forall|p: (int, int)|
                final(self)@.in_bounds(p) && #[trigger] final(self)@.at(p) == Cell::Path
                    ==> final(self)@.connected((0, 0), p),
    {
        let width = self.width();
        let height = self.height();
        let ghost m0 = self@;
        self.set_cell(0, 0, Cell::Path);
        let mut stack: Vec<(usize, usize)> = Vec::new();
        stack.push((0, 0));
        proof {
            let m = self@;
            lemma_set_at(m0, (0, 0), Cell::Path);
            let w = seq![(0int, 0int)];
            assert(m.is_path_route(w));
            assert(m.connected((0, 0), (0, 0)));
            assert(point(stack@[0]) == (0int, 0int));
            assert forall|p: (int, int)| m.in_bounds(p) && #[trigger] m.at(p) == Cell::Path implies p
                == (0int, 0int) by {
                assert(m0.at(p) == Cell::Wall);
            }
            reveal(carving);
            assert(carving(m, stack@));
        }
        while stack.len() > 0
            invariant
                self.wf(),
                self@.width == width,
                self@.height == height,
                carving(self@, stack@),
            decreases 2 * self@.count(Cell::Wall) + stack@.len(),
        {
            let ghost m1 = self@;
            let ghost s0 = stack@;
            let (x, y) = stack.pop().unwrap();
            let ghost cur = (x as int, y as int);
            proof {
                assert(point(s0[s0.len() - 1]) == cur);
                assert(stack@ =~= s0.drop_last());
                lemma_top(m1, s0);
            }
            let neighbors = self.unvisited_around(x, y);
            if neighbors.len() > 0 {
                stack.push((x, y));
                let (nx, ny) = picker.pick(&neighbors);
                let ghost next = (nx as int, ny as int);
                proof {
                    assert(stack@ =~= s0);
                    let k = choose|k: int| 0 <= k < neighbors@.len() && neighbors@[k] == (nx, ny);
                    assert(point(neighbors@[k]) == next);
                    lemma_mid(m1, cur, next);
                }
                let mx = x / 2 + nx / 2;
                let my = y / 2 + ny / 2;
                let ghost mid = (mx as int, my as int);
                self.set_cell(mx, my, Cell::Path);
                self.set_cell(nx, ny, Cell::Path);
                stack.push((nx, ny));
                proof {
                    lemma_carve(m1, s0, cur, mid, next, (nx, ny));
                }
            } else {
                proof {
                    lemma_backtrack(m1, s0, cur);
                }
            }
        }
        let ghost m4 = self@;
        proof {
            reveal(carving);
            assert forall|r: (int, int), n: (int, int)|
                m4.in_bounds(r) && is_room(r) && m4.at(r) == Cell::Path && m4.in_bounds(n)
                    && #[trigger] room_step(r, n) implies m4.at(n) != Cell::Wall by {
                if m4.at(n) == Cell::Wall {
                    assert(on_stack(stack@, r));
                }
            }
            assert forall|p: (int, int)| m4.in_bounds(p) && is_room(p) implies #[trigger] m4.at(p)
                == Cell::Path by {
                lemma_rooms_reached(m4, p.0, p.1);
            }
        }
        self.set_cell(0, 0, Cell::Path);
        let ghost m5 = self@;
        self.set_cell(width - 1, height - 1, Cell::Path);
        proof {
            let m6 = self@;
            let exit = m6.exit();
            lemma_set_at(m4, (0, 0), Cell::Path);
            lemma_set_at(m5, exit, Cell::Path);
            lemma_connected_grows(m4, m6);
            assert forall|p: (int, int)|
                m6.in_bounds(p) && #[trigger] m6.at(p) == Cell::Path && p != exit implies m6.connected(
                (0, 0),
                p,
            ) by {
                assert(m4.at(p) == Cell::Path);
                assert(m4.connected((0, 0), p));
            }
            if m6.width % 2 == 1 && m6.height % 2 == 1 {
                assert(is_room(exit));
                assert(m4.at(exit) == Cell::Path);
                assert(m4.connected((0, 0), exit));
            }
        }
    }
}

} // verus!
