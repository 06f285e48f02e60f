use maze::{Cell, Maze, MazeError, Picker};

fn grid_of(m: &Maze) -> Vec<Vec<Cell>> {
    let mut rows = Vec::new();
    for y in 0..m.height() {
        let mut row = Vec::new();
        for x in 0..m.width() {
            row.push(m.cell(x, y));
        }
        rows.push(row);
    }
    rows
}

fn count(m: &Maze, c: Cell) -> usize {
    grid_of(m).iter().flatten().filter(|&&k| k == c).count()
}

fn picture(rows: &[&str]) -> Vec<Vec<Cell>> {
    rows.iter()
        .map(|r| {
            r.chars()
                .map(|c| match c {
                    '#' => Cell::Wall,
                    '*' => Cell::SolvedPath,
                    _ => Cell::Path,
                })
                .collect()
        })
        .collect()
}

fn generated(n: usize, picker: &mut Picker) -> Maze {
    let mut m = Maze::new(n, n).unwrap();
    m.generate(picker);
    m
}

/// Cells reachable from the origin over `Path` cells.
fn reachable(g: &[Vec<Cell>]) -> Vec<(usize, usize)> {
    let h = g.len();
    let w = g[0].len();
    let mut seen = vec![vec![false; w]; h];
    let mut todo = vec![(0usize, 0usize)];
    let mut out = Vec::new();
    seen[0][0] = true;
    while let Some((x, y)) = todo.pop() {
        out.push((x, y));
        let mut next = Vec::new();
        if x + 1 < w { next.push((x + 1, y)); }
        if y + 1 < h { next.push((x, y + 1)); }
        if x > 0 { next.push((x - 1, y)); }
        if y > 0 { next.push((x, y - 1)); }
        for (nx, ny) in next {
            if !seen[ny][nx] && g[ny][nx] != Cell::Wall {
                seen[ny][nx] = true;
                todo.push((nx, ny));
            }
        }
    }
    out
}

#[test]
fn new_is_all_wall() {
    let m = Maze::new(4, 3).unwrap();
    assert_eq!(m.width(), 4);
    assert_eq!(m.height(), 3);
    assert_eq!(count(&m, Cell::Wall), 12);
}

#[test]
fn new_rejects_zero_dimensions() {
    assert_eq!(Maze::new(0, 5).err(), Some(MazeError::InvalidDimensions));
    assert_eq!(Maze::new(5, 0).err(), Some(MazeError::InvalidDimensions));
    assert_eq!(Maze::new(0, 0).err(), Some(MazeError::InvalidDimensions));
}

#[test]
fn first_candidate_five_by_five_layout() {
    let m = generated(5, &mut Picker::first_candidate());
    let expected = picture(&[".....", "####.", ".....", ".####", "....."]);
    assert_eq!(grid_of(&m), expected);
    let again = generated(5, &mut Picker::first_candidate());
    assert_eq!(grid_of(&again), expected);
}

#[test]
fn first_candidate_five_by_five_solves_along_the_snake() {
    let mut m = generated(5, &mut Picker::first_candidate());
    assert!(m.solve());
    let expected = picture(&["*****", "####*", "*****", "*####", "*****"]);
    assert_eq!(grid_of(&m), expected);
}

#[test]
fn same_seed_same_maze() {
    let a = generated(21, &mut Picker::seeded(42));
    let b = generated(21, &mut Picker::seeded(42));
    assert_eq!(grid_of(&a), grid_of(&b));
}

#[test]
fn corners_open_for_odd_sizes() {
    for n in [1usize, 3, 5, 7, 9, 15, 31] {
        for seed in 0..5u64 {
            let m = generated(n, &mut Picker::seeded(seed));
            assert_eq!(m.cell(0, 0), Cell::Path);
            assert_eq!(m.cell(n - 1, n - 1), Cell::Path);
        }
    }
}

#[test]
fn one_by_one_is_a_single_path_cell() {
    let mut m = generated(1, &mut Picker::seeded(7));
    assert_eq!(grid_of(&m), vec![vec![Cell::Path]]);
    assert!(m.solve());
    assert_eq!(grid_of(&m), vec![vec![Cell::SolvedPath]]);
}

#[test]
fn generation_never_all_wall() {
    for n in 1..12usize {
        let m = generated(n, &mut Picker::seeded(n as u64));
        assert!(count(&m, Cell::Path) >= 1);
        assert_eq!(m.cell(0, 0), Cell::Path);
    }
}

#[test]
fn odd_maze_path_cells_all_reachable_and_form_a_tree() {
    for seed in 0..10u64 {
        let n = 15;
        let m = generated(n, &mut Picker::seeded(seed));
        let g = grid_of(&m);
        let paths = count(&m, Cell::Path);
        assert_eq!(reachable(&g).len(), paths);
        // every room is carved
        for y in (0..n).step_by(2) {
            for x in (0..n).step_by(2) {
                assert_eq!(g[y][x], Cell::Path);
            }
        }
        // a spanning tree over (n+1)/2 squared rooms carves one corridor per room but the first
        let rooms = ((n + 1) / 2) * ((n + 1) / 2);
        assert_eq!(paths, 2 * rooms - 1);
        assert_eq!(count(&m, Cell::SolvedPath), 0);
    }
}

#[test]
fn random_picks_differ_from_first_candidate() {
    let first = grid_of(&generated(21, &mut Picker::first_candidate()));
    let differs = (0..10u64).any(|s| grid_of(&generated(21, &mut Picker::seeded(s))) != first);
    assert!(differs);
}

#[test]
fn even_size_exit_is_isolated() {
    let m = generated(4, &mut Picker::seeded(3));
    let g = grid_of(&m);
    assert_eq!(g[3][3], Cell::Path);
    assert_eq!(g[2][3], Cell::Wall);
    assert_eq!(g[3][2], Cell::Wall);
}

#[test]
fn solve_on_generated_odd_maze_marks_a_simple_path() {
    for seed in 0..10u64 {
        let n = 11;
        let mut m = generated(n, &mut Picker::seeded(seed));
        let before = grid_of(&m);
        assert!(m.solve());
        let g = grid_of(&m);
        let marked: Vec<(usize, usize)> = (0..n)
            .flat_map(|y| (0..n).map(move |x| (x, y)))
            .filter(|&(x, y)| g[y][x] == Cell::SolvedPath)
            .collect();
        assert!(marked.len() >= 2 * (n - 1) + 1);
        assert_eq!(g[0][0], Cell::SolvedPath);
        assert_eq!(g[n - 1][n - 1], Cell::SolvedPath);
        for &(x, y) in &marked {
            assert_eq!(before[y][x], Cell::Path);
            let mut k = 0;
            if x + 1 < n && g[y][x + 1] == Cell::SolvedPath { k += 1; }
            if y + 1 < n && g[y + 1][x] == Cell::SolvedPath { k += 1; }
            if x > 0 && g[y][x - 1] == Cell::SolvedPath { k += 1; }
            if y > 0 && g[y - 1][x] == Cell::SolvedPath { k += 1; }
            if (x, y) == (0, 0) || (x, y) == (n - 1, n - 1) {
                assert_eq!(k, 1);
            } else {
                assert_eq!(k, 2);
            }
        }
        for y in 0..n {
            for x in 0..n {
                if g[y][x] != Cell::SolvedPath {
                    assert_eq!(g[y][x], before[y][x]);
                }
            }
        }
    }
}

#[test]
fn solve_unreachable_exit_returns_false_and_leaves_no_marks() {
    for n in [2usize, 4, 6] {
        let mut m = generated(n, &mut Picker::seeded(1));
        let before = grid_of(&m);
        assert!(!m.solve());
        assert_eq!(grid_of(&m), before);
        assert_eq!(count(&m, Cell::SolvedPath), 0);
    }
}

#[test]
fn solve_twice_second_call_is_a_no_op() {
    let mut m = generated(9, &mut Picker::seeded(5));
    assert!(m.solve());
    let solved = grid_of(&m);
    assert!(!m.solve());
    assert_eq!(grid_of(&m), solved);
}

#[test]
fn solve_recursive_from_exit_marks_only_it() {
    let mut m = generated(3, &mut Picker::first_candidate());
    assert!(m.solve_recursive(2, 2));
    assert_eq!(count(&m, Cell::SolvedPath), 1);
    assert_eq!(m.cell(2, 2), Cell::SolvedPath);
}

#[test]
fn solve_recursive_from_wall_fails() {
    let mut m = generated(3, &mut Picker::first_candidate());
    let before = grid_of(&m);
    assert_eq!(m.cell(0, 1), Cell::Wall);
    assert!(!m.solve_recursive(0, 1));
    assert_eq!(grid_of(&m), before);
}
