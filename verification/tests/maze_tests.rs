use maze_gen::maze::{keep_larger, Cell, Direction, Maze};
use maze_gen::picker::SequencePicker;

/// Counts open passages once per adjacent pair: right-facing flags toward an
/// in-grid neighbor plus bottom-facing flags toward an in-grid neighbor.
fn passage_count(cells: &Vec<Vec<Cell>>) -> usize {
    let d = cells.len();
    let mut n = 0;
    for x in 0..d {
        for y in 0..d {
            if x + 1 < d && cells[x][y].right {
                n += 1;
            }
            if y + 1 < d && cells[x][y].bottom {
                n += 1;
            }
        }
    }
    n
}

fn visited_non_border_count(cells: &Vec<Vec<Cell>>) -> usize {
    let d = cells.len();
    let mut n = 0;
    for x in 0..d {
        for y in 0..d {
            if cells[x][y].visited && !cells[x][y].border {
                n += 1;
            }
        }
    }
    n
}

fn open_between(cells: &Vec<Vec<Cell>>, a: (usize, usize), b: (usize, usize)) -> bool {
    if b.0 == a.0 && a.1 > 0 && b.1 == a.1 - 1 {
        cells[a.0][a.1].top && cells[b.0][b.1].bottom
    } else if b.0 == a.0 && b.1 == a.1 + 1 {
        cells[a.0][a.1].bottom && cells[b.0][b.1].top
    } else if a.0 > 0 && b.0 == a.0 - 1 && b.1 == a.1 {
        cells[a.0][a.1].left && cells[b.0][b.1].right
    } else if b.0 == a.0 + 1 && b.1 == a.1 {
        cells[a.0][a.1].right && cells[b.0][b.1].left
    } else {
        false
    }
}

#[test]
fn cell_new_starts_fully_walled() {
    let c = Cell::new();
    assert!(!c.top && !c.left && !c.bottom && !c.right);
    assert!(!c.visited && !c.border && !c.solution);
}

#[test]
fn size_one_scenario() {
    let m = Maze::new(1);
    let cells = m.get_maze();
    assert_eq!(cells.len(), 3);
    for row in cells.iter() {
        assert_eq!(row.len(), 3);
    }
    // the single interior cell
    assert!(!cells[1][1].border);
    assert!(cells[1][1].visited);
    // entrance and exit end up connected through the maze
    let sol = m.get_solution_length();
    assert!(sol == 2 || sol == 3);
    assert!(cells[1][0].visited);
    assert!(cells[1][2].visited);
}

#[test]
fn size_five_scenario() {
    let m = Maze::new(5);
    let cells = m.get_maze();
    assert_eq!(cells.len(), 7);
    let sol = m.get_solution_length();
    // the path is counted in cells and includes entrance and exit, so the
    // 25 interior cells bound it at 27
    assert!(2 <= sol && sol <= 27);
    let mut interior_visited = 0;
    for x in 1..6 {
        for y in 1..6 {
            if cells[x][y].visited {
                interior_visited += 1;
            }
        }
    }
    // every interior cell is grid-connected to the entrance, so the
    // depth-first carve reaches all 25 of them
    assert_eq!(interior_visited, 25);
}

#[test]
fn size_zero_leaves_exit_unreached() {
    let m = Maze::new(0);
    let cells = m.get_maze();
    assert_eq!(cells.len(), 2);
    assert_eq!(m.get_solution_length(), 0);
    for x in 0..2 {
        for y in 0..2 {
            assert!(!cells[x][y].solution);
        }
    }
}

#[test]
fn passages_are_bidirectional() {
    let m = Maze::new(6);
    let cells = m.get_maze();
    let d = cells.len();
    for x in 0..d {
        for y in 0..d {
            if x + 1 < d {
                assert_eq!(cells[x][y].right, cells[x + 1][y].left);
            }
            if y + 1 < d {
                assert_eq!(cells[x][y].bottom, cells[x][y + 1].top);
            }
        }
    }
}

#[test]
fn border_stays_sealed_except_openings() {
    let m = Maze::new(5);
    let cells = m.get_maze();
    let d = cells.len();
    for x in 0..d {
        for y in 0..d {
            let on_ring = x == 0 || x == d - 1 || y == 0 || y == d - 1;
            let opening = (x == 1 && y == 0) || (x == d - 2 && y == d - 1);
            if on_ring && !opening {
                let c = &cells[x][y];
                assert!(!c.top && !c.left && !c.bottom && !c.right);
                assert!(c.border && c.visited && !c.solution);
            }
        }
    }
    // the two openings keep their outward cut and never seal
    assert!(cells[1][0].top);
    assert!(!cells[1][0].border);
    assert!(cells[d - 2][d - 1].bottom);
    assert!(!cells[d - 2][d - 1].border);
}

#[test]
fn spanning_tree_passage_count() {
    for size in [1u16, 4, 9] {
        let m = Maze::new(size);
        let cells = m.get_maze();
        let carved = passage_count(cells);
        let reached = visited_non_border_count(cells);
        assert_eq!(carved, reached - 1);
    }
}

#[test]
fn solution_path_is_connected_and_counted() {
    let m = Maze::new(6);
    let cells = m.get_maze();
    let d = cells.len();
    let sol = m.get_solution_length();
    assert!(sol >= 2);
    let mut marked = 0;
    for x in 0..d {
        for y in 0..d {
            if cells[x][y].solution {
                marked += 1;
            }
        }
    }
    assert_eq!(marked, sol);
    // walk from the entrance along open passages through marked cells only
    let entrance = (1usize, 0usize);
    let exit = (d - 2, d - 1);
    assert!(cells[entrance.0][entrance.1].solution);
    assert!(cells[exit.0][exit.1].solution);
    let mut prev = (usize::MAX, usize::MAX);
    let mut cur = entrance;
    let mut steps = 1;
    while cur != exit {
        let (x, y) = cur;
        let mut neighbors: Vec<(usize, usize)> = Vec::new();
        if y > 0 {
            neighbors.push((x, y - 1));
        }
        if y + 1 < d {
            neighbors.push((x, y + 1));
        }
        if x > 0 {
            neighbors.push((x - 1, y));
        }
        if x + 1 < d {
            neighbors.push((x + 1, y));
        }
        let mut next = None;
        for n in neighbors {
            if n != prev && cells[n.0][n.1].solution && open_between(cells, cur, n) {
                assert!(next.is_none(), "solution path must not branch");
                next = Some(n);
            }
        }
        let n = next.expect("solution path must continue until the exit");
        prev = cur;
        cur = n;
        steps += 1;
        assert!(steps <= sol, "solution path must not exceed its recorded length");
    }
    assert_eq!(steps, sol);
}

#[test]
fn determinism_under_fixed_choices() {
    let choices: Vec<usize> = vec![2, 0, 1, 3, 1, 0, 2, 2, 1, 0, 3, 1];
    let mut a = Maze::new(5);
    let mut b = Maze::new(5);
    let mut pa = SequencePicker::new(choices.clone());
    let mut pb = SequencePicker::new(choices);
    a.generate_with(&mut pa);
    b.generate_with(&mut pb);
    assert_eq!(a.get_maze(), b.get_maze());
    assert_eq!(a.get_solution_length(), b.get_solution_length());
}

#[test]
fn regeneration_resets_previous_run() {
    let mut m = Maze::new(4);
    let mut p = SequencePicker::new(vec![0, 1, 2, 3, 0, 2]);
    m.generate_with(&mut p);
    // the regenerated maze keeps all its invariants
    let cells = m.get_maze();
    assert_eq!(passage_count(cells), visited_non_border_count(cells) - 1);
    assert_eq!(m.get_solution_length() > 0, true);
}

#[test]
fn batch_returns_largest_solution() {
    let mut best = Maze::new(4);
    let mut largest = best.get_solution_length();
    for _ in 0..9 {
        let candidate = Maze::new(4);
        if candidate.get_solution_length() > largest {
            largest = candidate.get_solution_length();
        }
        best = keep_larger(best, candidate);
    }
    assert_eq!(best.get_solution_length(), largest);
}

#[test]
fn keep_larger_prefers_longer_path() {
    let small = Maze::new(1);
    let big = Maze::new(6);
    let small_len = small.get_solution_length();
    let big_len = big.get_solution_length();
    assert!(big_len > small_len);
    let w = keep_larger(small, big);
    assert_eq!(w.get_solution_length(), big_len);
    let small2 = Maze::new(1);
    let big2 = Maze::new(6);
    let big2_len = big2.get_solution_length();
    let w2 = keep_larger(big2, small2);
    assert_eq!(w2.get_solution_length(), big2_len);
}

#[test]
fn prepared_board_and_direction_query() {
    let mut m = Maze::new(1);
    m.prepare_board(3);
    let cells = m.get_maze();
    // inside: fully closed and untouched
    let c = &cells[1][1];
    assert!(!c.top && !c.left && !c.bottom && !c.right);
    assert!(!c.visited && !c.border && !c.solution);
    // entrance above and exit below are the only unvisited neighbors
    let dirs = m.get_valid_directions((1, 1), (3, 3));
    assert_eq!(dirs, vec![Direction::UP, Direction::DOWN]);
    // from the sealed corner only the unvisited entrance beside it counts
    let dirs = m.get_valid_directions((0, 0), (3, 3));
    assert_eq!(dirs, vec![Direction::RIGHT]);
}

#[test]
fn no_directions_left_after_generation() {
    let m = Maze::new(1);
    let dirs = m.get_valid_directions((1, 1), (3, 3));
    assert_eq!(dirs.len(), 0);
}

#[test]
fn preparation_is_deterministic() {
    let mut a = Maze::new(4);
    let mut b = Maze::new(4);
    a.prepare_board(6);
    b.prepare_board(6);
    assert_eq!(a.get_maze(), b.get_maze());
}
