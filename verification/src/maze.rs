use vstd::prelude::*;

use crate::picker::DirectionPicker;
use crate::picker::RandomPicker;

verus! {

/// One grid position: four passage flags (`true` means the passage in that
/// direction is open, `false` means a wall stands there), plus the traversal
/// and rendering flags.
#[derive(Clone, Copy, Debug, PartialEq, Eq, Structural)]
pub struct Cell {
    pub top: bool,
    pub left: bool,
    pub bottom: bool,
    pub right: bool,
    pub visited: bool,
    pub border: bool,
    pub solution: bool,
}

/// The fully closed, untouched cell: every wall present, no flag set.
pub open spec fn closed_cell() -> Cell {
    Cell {
        top: false,
        left: false,
        bottom: false,
        right: false,
        visited: false,
        border: false,
        solution: false,
    }
}

/// A sealed perimeter cell: every wall present, already visited, border.
pub open spec fn sealed_cell() -> Cell {
    Cell {
        top: false,
        left: false,
        bottom: false,
        right: false,
        visited: true,
        border: true,
        solution: false,
    }
}

/// The entrance before generation: unvisited, unsealed, with its opening
/// toward the outside of the grid already cut through the top edge.
pub open spec fn entrance_cell() -> Cell {
    Cell {
        top: true,
        left: false,
        bottom: false,
        right: false,
        visited: false,
        border: false,
        solution: false,
    }
}

/// The exit before generation: unvisited, unsealed, with its opening toward
/// the outside of the grid already cut through the bottom edge.
pub open spec fn exit_cell() -> Cell {
    Cell {
        top: false,
        left: false,
        bottom: true,
        right: false,
        visited: false,
        border: false,
        solution: false,
    }
}

impl Cell {
    /// Constructs a new `Cell` with all walls intact and unvisited.
    pub fn new() -> (c: Cell)
        ensures
            c == closed_cell(),
    {
        Cell {
            top: false,
            left: false,
            bottom: false,
            right: false,
            visited: false,
            border: false,
            solution: false,
        }
    }
}

/// The four grid-adjacent moves; no diagonals exist.
#[allow(non_camel_case_types)]
#[derive(Clone, Copy, Debug, PartialEq, Eq, Structural)]
pub enum Direction {
    UP,
    DOWN,
    LEFT,
    RIGHT,
}

/// The mathematical view of a grid: a sequence of columns of cells,
/// indexed `g[x][y]` with `y` growing downward.
pub open spec fn grid_view(v: Seq<Vec<Cell>>) -> Seq<Seq<Cell>> {
    v.map_values(|row: Vec<Cell>| row@)
}

/// A square grid of side length at least 2 (the border ring alone needs 2).
pub open spec fn grid_wf(g: Seq<Seq<Cell>>) -> bool {
    &&& g.len() >= 2
    &&& forall|x: int| 0 <= x < g.len() ==> (#[trigger] g[x]).len() == g.len()
}

pub open spec fn in_grid(g: Seq<Seq<Cell>>, x: int, y: int) -> bool {
    0 <= x < g.len() && 0 <= y < g.len()
}

/// Does (x, y) lie on the one-cell perimeter ring of a d-by-d grid?
pub open spec fn on_ring(d: int, x: int, y: int) -> bool {
    x == 0 || x == d - 1 || y == 0 || y == d - 1
}

/// The fixed entrance: top edge, one column in.
pub open spec fn entrance_pos(d: int) -> (int, int) {
    (1, 0)
}

/// The fixed exit: bottom edge, one column in from the far side.
pub open spec fn exit_pos(d: int) -> (int, int) {
    (d - 2, d - 1)
}

/// What every cell of a freshly prepared d-by-d board holds: a sealed
/// perimeter ring, the two openings carved back out of it, and fully
/// closed unvisited cells everywhere inside.
pub open spec fn prepared_cell(d: int, x: int, y: int) -> Cell {
    if (x, y) == entrance_pos(d) {
        entrance_cell()
    } else if (x, y) == exit_pos(d) {
        exit_cell()
    } else if on_ring(d, x, y) {
        sealed_cell()
    } else {
        closed_cell()
    }
}

/// Every passage is bidirectional: a flag on one cell pointing at an
/// in-grid neighbor is mirrored by the opposite flag on that neighbor.
pub open spec fn mirrored(g: Seq<Seq<Cell>>) -> bool {
    &&& forall|x: int, y: int|
        #![trigger g[x][y], g[x + 1][y]]
        0 <= x < g.len() - 1 && 0 <= y < g.len() ==> (g[x][y].right <==> g[x + 1][y].left)
    &&& forall|x: int, y: int|
        #![trigger g[x][y], g[x][y + 1]]
        0 <= x < g.len() && 0 <= y < g.len() - 1 ==> (g[x][y].bottom <==> g[x][y + 1].top)
}

/// Every perimeter cell except the entrance and the exit stays exactly the
/// sealed border cell: no passage flag ever points outside the grid.
pub open spec fn border_sealed(g: Seq<Seq<Cell>>) -> bool {
    forall|x: int, y: int|
        in_grid(g, x, y) && on_ring(g.len() as int, x, y) && (x, y) != entrance_pos(g.len() as int)
            && (x, y) != exit_pos(g.len() as int) ==> #[trigger] g[x][y] == sealed_cell()
}

/// One open step of a path: `b` is grid-adjacent to `a` and the passage
/// between them is open from both sides.
pub open spec fn adjacent_open(g: Seq<Seq<Cell>>, a: (int, int), b: (int, int)) -> bool {
    &&& in_grid(g, a.0, a.1)
    &&& in_grid(g, b.0, b.1)
    &&& {
        ||| (b == (a.0, a.1 - 1) && g[a.0][a.1].top && g[b.0][b.1].bottom)
        ||| (b == (a.0, a.1 + 1) && g[a.0][a.1].bottom && g[b.0][b.1].top)
        ||| (b == (a.0 - 1, a.1) && g[a.0][a.1].left && g[b.0][b.1].right)
        ||| (b == (a.0 + 1, a.1) && g[a.0][a.1].right && g[b.0][b.1].left)
    }
}

/// Consecutive path cells are connected by open passages.
pub open spec fn is_open_path(g: Seq<Seq<Cell>>, p: Seq<(int, int)>) -> bool {
    forall|i: int|
        #![trigger adjacent_open(g, p[i], p[i + 1])]
        0 <= i < p.len() - 1 ==> adjacent_open(g, p[i], p[i + 1])
}

/// An entrance-to-exit path of open passages.
pub open spec fn is_solution_path(g: Seq<Seq<Cell>>, p: Seq<(int, int)>) -> bool {
    &&& p.len() >= 2
    &&& p[0] == entrance_pos(g.len() as int)
    &&& p[p.len() - 1] == exit_pos(g.len() as int)
    &&& is_open_path(g, p)
}

/// The cells flagged `solution` are exactly the cells of `p`.
pub open spec fn solution_marks_match(g: Seq<Seq<Cell>>, p: Seq<(int, int)>) -> bool {
    forall|x: int, y: int|
        in_grid(g, x, y) ==> ((#[trigger] g[x][y]).solution <==> p.contains((x, y)))
}

/// No cell is flagged `solution`.
pub open spec fn no_solution_marks(g: Seq<Seq<Cell>>) -> bool {
    forall|x: int, y: int| in_grid(g, x, y) ==> !(#[trigger] g[x][y]).solution
}

/// The entrance keeps its outward cut through the top edge and the exit
/// its outward cut through the bottom edge.
pub open spec fn openings_cut(g: Seq<Seq<Cell>>) -> bool {
    &&& g[1][0].top
    &&& g[g.len() - 2][g.len() - 1].bottom
}

/// The border flag marks exactly the sealed ring: every perimeter cell but
/// the two openings carries it, and no cell inside ever does.
pub open spec fn border_flags_exact(g: Seq<Seq<Cell>>) -> bool {
    forall|x: int, y: int|
        in_grid(g, x, y) ==> ((#[trigger] g[x][y]).border <==> (on_ring(g.len() as int, x, y) && (
        x,
        y,
        ) != entrance_pos(g.len() as int) && (x, y) != exit_pos(g.len() as int)))
}

/// All four in-grid neighbors of (x, y) are visited.
pub open spec fn neighbors_visited(g: Seq<Seq<Cell>>, x: int, y: int) -> bool {
    &&& (y > 0 ==> g[x][y - 1].visited)
    &&& (y < g.len() - 1 ==> g[x][y + 1].visited)
    &&& (x > 0 ==> g[x - 1][y].visited)
    &&& (x < g.len() - 1 ==> g[x + 1][y].visited)
}

/// Every reached non-border cell has been fully explored: each of its
/// neighbors is visited. Depth-first backtracking leaves exactly this
/// behind once its stack has emptied.
pub open spec fn fully_explored(g: Seq<Seq<Cell>>) -> bool {
    forall|x: int, y: int|
        in_grid(g, x, y) && g[x][y].visited && !g[x][y].border ==> #[trigger] neighbors_visited(
            g,
            x,
            y,
        )
}

/// The cell at (x, y) is visited and carries no border flag.
pub open spec fn g_cell_visited_free(g: Seq<Seq<Cell>>, x: int, y: int) -> bool {
    g[x][y].visited && !g[x][y].border
}

/// (x, y) still waits on the carving stack.
pub open spec fn stack_holds(s: Seq<(usize, usize)>, x: int, y: int) -> bool {
    exists|i: int| 0 <= i < s.len() && pt(#[trigger] s[i]) == (x, y)
}

/// `p` runs from the entrance to (x, y) along open passages.
pub open spec fn entrance_path(g: Seq<Seq<Cell>>, p: Seq<(int, int)>, x: int, y: int) -> bool {
    &&& is_open_path(g, p)
    &&& p.len() >= 1
    &&& p[0] == entrance_pos(g.len() as int)
    &&& p[p.len() - 1] == (x, y)
}

/// Some path of open passages joins the entrance to (x, y).
pub open spec fn connected_to_entrance(g: Seq<Seq<Cell>>, x: int, y: int) -> bool {
    exists|p: Seq<(int, int)>| entrance_path(g, p, x, y)
}

/// No position repeats along `p`.
pub open spec fn all_distinct(p: Seq<(int, int)>) -> bool {
    forall|i: int, j: int| 0 <= i < j < p.len() ==> p[i] != p[j]
}

/// The coordinate one step away from (x, y) in the given direction.
pub open spec fn step_target(x: int, y: int, dir: Direction) -> (int, int) {
    match dir {
        Direction::UP => (x, y - 1),
        Direction::DOWN => (x, y + 1),
        Direction::LEFT => (x - 1, y),
        Direction::RIGHT => (x + 1, y),
    }
}

pub open spec fn opposite(dir: Direction) -> Direction {
    match dir {
        Direction::UP => Direction::DOWN,
        Direction::DOWN => Direction::UP,
        Direction::LEFT => Direction::RIGHT,
        Direction::RIGHT => Direction::LEFT,
    }
}

/// A move from (x, y) is valid iff its target lies inside the grid and has
/// not been visited yet.
pub open spec fn dir_valid(g: Seq<Seq<Cell>>, x: int, y: int, dir: Direction) -> bool {
    let t = step_target(x, y, dir);
    in_grid(g, t.0, t.1) && !g[t.0][t.1].visited
}

/// The valid moves from (x, y), always listed in the fixed order
/// up, down, left, right.
pub open spec fn valid_directions(g: Seq<Seq<Cell>>, x: int, y: int) -> Seq<Direction> {
    (if dir_valid(g, x, y, Direction::UP) {
        seq![Direction::UP]
    } else {
        Seq::<Direction>::empty()
    }) + (if dir_valid(g, x, y, Direction::DOWN) {
        seq![Direction::DOWN]
    } else {
        Seq::<Direction>::empty()
    }) + (if dir_valid(g, x, y, Direction::LEFT) {
        seq![Direction::LEFT]
    } else {
        Seq::<Direction>::empty()
    }) + (if dir_valid(g, x, y, Direction::RIGHT) {
        seq![Direction::RIGHT]
    } else {
        Seq::<Direction>::empty()
    })
}

/// The cell `c` with the passage flag toward `dir` opened.
pub open spec fn with_passage(c: Cell, dir: Direction) -> Cell {
    match dir {
        Direction::UP => Cell { top: true, ..c },
        Direction::DOWN => Cell { bottom: true, ..c },
        Direction::LEFT => Cell { left: true, ..c },
        Direction::RIGHT => Cell { right: true, ..c },
    }
}

pub open spec fn with_visited(c: Cell) -> Cell {
    Cell { visited: true, ..c }
}

/// Passage flags may only be opened, never closed.
pub open spec fn flags_monotone(c1: Cell, c2: Cell) -> bool {
    &&& (c1.top ==> c2.top)
    &&& (c1.left ==> c2.left)
    &&& (c1.bottom ==> c2.bottom)
    &&& (c1.right ==> c2.right)
}

/// The integer point of a machine coordinate pair.
pub open spec fn pt(p: (usize, usize)) -> (int, int) {
    (p.0 as int, p.1 as int)
}

/// The integer points of a stack of machine coordinates.
pub open spec fn stack_points(s: Seq<(usize, usize)>) -> Seq<(int, int)> {
    Seq::new(s.len(), |i: int| pt(s[i]))
}

/// 1 when the cell still waits to be visited, else 0.
pub open spec fn cell_unvisited(c: Cell) -> int {
    if c.visited {
        0
    } else {
        1
    }
}

/// How many cells of one column still wait to be visited.
pub open spec fn count_unvisited_row(row: Seq<Cell>) -> int
    decreases row.len(),
{
    if row.len() == 0 {
        0
    } else {
        count_unvisited_row(row.drop_last()) + cell_unvisited(row.last())
    }
}

/// How many cells of the whole grid still wait to be visited.
pub open spec fn count_unvisited(g: Seq<Seq<Cell>>) -> int
    decreases g.len(),
{
    if g.len() == 0 {
        0
    } else {
        count_unvisited(g.drop_last()) + count_unvisited_row(g.last())
    }
}

proof fn lemma_count_row_nonneg(row: Seq<Cell>)
    ensures
        count_unvisited_row(row) >= 0,
    decreases row.len(),
{
    if row.len() > 0 {
        lemma_count_row_nonneg(row.drop_last());
    }
}

proof fn lemma_count_nonneg(g: Seq<Seq<Cell>>)
    ensures
        count_unvisited(g) >= 0,
    decreases g.len(),
{
    if g.len() > 0 {
        lemma_count_nonneg(g.drop_last());
        lemma_count_row_nonneg(g.last());
    }
}

/// Overwriting one cell of a column moves its count by the difference of
/// the two cells' contributions.
proof fn lemma_count_row_update(row: Seq<Cell>, j: int, c: Cell)
    requires
        0 <= j < row.len(),
    ensures
        count_unvisited_row(row.update(j, c)) == count_unvisited_row(row) - cell_unvisited(
            row[j],
        ) + cell_unvisited(c),
    decreases row.len(),
{
    let r2 = row.update(j, c);
    if j == row.len() - 1 {
        assert(r2.drop_last() =~= row.drop_last());
        assert(r2.last() == c);
    } else {
        assert(r2.drop_last() =~= row.drop_last().update(j, c));
        assert(r2.last() == row.last());
        lemma_count_row_update(row.drop_last(), j, c);
    }
}

/// Overwriting one column of the grid moves its count by the difference of
/// the two columns' counts.
proof fn lemma_count_grid_update(g: Seq<Seq<Cell>>, i: int, row: Seq<Cell>)
    requires
        0 <= i < g.len(),
    ensures
        count_unvisited(g.update(i, row)) == count_unvisited(g) - count_unvisited_row(g[i])
            + count_unvisited_row(row),
    decreases g.len(),
{
    let g2 = g.update(i, row);
    if i == g.len() - 1 {
        assert(g2.drop_last() =~= g.drop_last());
        assert(g2.last() == row);
    } else {
        assert(g2.drop_last() =~= g.drop_last().update(i, row));
        assert(g2.last() == g.last());
        lemma_count_grid_update(g.drop_last(), i, row);
    }
}

/// Every border-flagged cell has already been visited.
pub open spec fn borders_visited(g: Seq<Seq<Cell>>) -> bool {
    forall|x: int, y: int|
        in_grid(g, x, y) && (#[trigger] g[x][y]).border ==> g[x][y].visited
}

/// How one carve from (x, y) toward `dir` rewrites the grid: the source
/// cell gains the passage flag toward `dir`, the target cell gains the
/// mirrored flag and its visited mark, and no other cell moves.
pub open spec fn carve_effect(
    g1: Seq<Seq<Cell>>,
    g2: Seq<Seq<Cell>>,
    x: int,
    y: int,
    dir: Direction,
) -> bool {
    let t = step_target(x, y, dir);
    &&& forall|a: int, b: int|
        in_grid(g1, a, b) && (a, b) != (x, y) && (a, b) != t ==> #[trigger] g2[a][b] == g1[a][b]
    &&& g2[x][y] == with_passage(g1[x][y], dir)
    &&& g2[t.0][t.1] == with_visited(with_passage(g1[t.0][t.1], opposite(dir)))
}

/// A carve only adds passage flags and a visited mark; it never touches
/// solution or border flags.
proof fn lemma_carve_pointwise(g1: Seq<Seq<Cell>>, g2: Seq<Seq<Cell>>, x: int, y: int, dir: Direction)
    requires
        grid_wf(g1),
        g2.len() == g1.len(),
        0 <= x < g1.len(),
        0 <= y < g1.len(),
        dir_valid(g1, x, y, dir),
        carve_effect(g1, g2, x, y, dir),
    ensures
        forall|a: int, b: int|
            in_grid(g1, a, b) ==> flags_monotone(g1[a][b], #[trigger] g2[a][b]),
        forall|a: int, b: int|
            in_grid(g1, a, b) ==> (#[trigger] g2[a][b]).solution == g1[a][b].solution,
        forall|a: int, b: int|
            in_grid(g1, a, b) ==> (g1[a][b].visited ==> (#[trigger] g2[a][b]).visited),
        forall|a: int, b: int|
            in_grid(g1, a, b) ==> (#[trigger] g2[a][b]).border == g1[a][b].border,
{
    let t = step_target(x, y, dir);
    assert forall|a: int, b: int| in_grid(g1, a, b) implies flags_monotone(
        g1[a][b],
        #[trigger] g2[a][b],
    ) && g2[a][b].solution == g1[a][b].solution && (g1[a][b].visited ==> g2[a][b].visited)
        && g2[a][b].border == g1[a][b].border by {
        if (a, b) == (x, y) {
        } else if (a, b) == t {
        } else {
            assert(g2[a][b] == g1[a][b]);
        }
    }
}

/// A carve keeps every passage bidirectional.
proof fn lemma_carve_mirrored(g1: Seq<Seq<Cell>>, g2: Seq<Seq<Cell>>, x: int, y: int, dir: Direction)
    requires
        grid_wf(g1),
        g2.len() == g1.len(),
        mirrored(g1),
        0 <= x < g1.len(),
        0 <= y < g1.len(),
        dir_valid(g1, x, y, dir),
        carve_effect(g1, g2, x, y, dir),
    ensures
        mirrored(g2),
{
    let t = step_target(x, y, dir);
    assert forall|a: int, b: int| 0 <= a < g2.len() - 1 && 0 <= b < g2.len() implies ((
    #[trigger] g2[a][b]).right <==> g2[a + 1][b].left) by {
        if (a, b) != (x, y) && (a, b) != t {
            assert(g2[a][b] == g1[a][b]);
        }
        if (a + 1, b) != (x, y) && (a + 1, b) != t {
            assert(g2[a + 1][b] == g1[a + 1][b]);
        }
    }
    assert forall|a: int, b: int| 0 <= a < g2.len() && 0 <= b < g2.len() - 1 implies ((
    #[trigger] g2[a][b]).bottom <==> g2[a][b + 1].top) by {
        if (a, b) != (x, y) && (a, b) != t {
            assert(g2[a][b] == g1[a][b]);
        }
        if (a, b + 1) != (x, y) && (a, b + 1) != t {
            assert(g2[a][b + 1] == g1[a][b + 1]);
        }
    }
}

/// A carve never touches a sealed perimeter cell: its source is a visited
/// non-border cell and its target is unvisited, while every sealed cell is
/// a visited border cell.
proof fn lemma_carve_border(g1: Seq<Seq<Cell>>, g2: Seq<Seq<Cell>>, x: int, y: int, dir: Direction)
    requires
        grid_wf(g1),
        g2.len() == g1.len(),
        border_sealed(g1),
        borders_visited(g1),
        0 <= x < g1.len(),
        0 <= y < g1.len(),
        !g1[x][y].border,
        dir_valid(g1, x, y, dir),
        carve_effect(g1, g2, x, y, dir),
    ensures
        border_sealed(g2),
        borders_visited(g2),
{
    let t = step_target(x, y, dir);
    assert(!g1[t.0][t.1].border);
    assert forall|a: int, b: int|
        in_grid(g2, a, b) && on_ring(g2.len() as int, a, b) && (a, b) != entrance_pos(
        g2.len() as int,
    ) && (a, b) != exit_pos(g2.len() as int) implies #[trigger] g2[a][b] == sealed_cell() by {
        assert(g1[a][b] == sealed_cell());
        assert((a, b) != (x, y));
        assert((a, b) != t);
    }
    assert forall|a: int, b: int|
        in_grid(g2, a, b) && (#[trigger] g2[a][b]).border implies g2[a][b].visited by {
        if (a, b) == (x, y) {
        } else if (a, b) == t {
        } else {
            assert(g2[a][b] == g1[a][b]);
        }
    }
}

/// An unreached cell holds no passage flag toward the inside of the grid;
/// only the exit's outward bottom cut (and the entrance's outward top cut)
/// may stand open before a cell is visited.
pub open spec fn unvisited_closed(g: Seq<Seq<Cell>>) -> bool {
    forall|x: int, y: int|
        in_grid(g, x, y) && !(#[trigger] g[x][y]).visited ==> !g[x][y].left && !g[x][y].right && (
        y > 0 ==> !g[x][y].top) && (y < g.len() - 1 ==> !g[x][y].bottom)
}

/// The passage contributions of one cell at (x, y) that are counted once
/// per adjacent pair: its right flag toward an in-grid neighbor plus its
/// bottom flag toward an in-grid neighbor.
pub open spec fn cell_passages(c: Cell, x: int, y: int, d: int) -> int {
    (if c.right && x + 1 < d {
        1int
    } else {
        0int
    }) + (if c.bottom && y + 1 < d {
        1int
    } else {
        0int
    })
}

pub open spec fn count_passages_row(row: Seq<Cell>, x: int, d: int) -> int
    decreases row.len(),
{
    if row.len() == 0 {
        0
    } else {
        count_passages_row(row.drop_last(), x, d) + cell_passages(row.last(), x, row.len() - 1, d)
    }
}

/// How many open passages the grid holds, each counted once.
pub open spec fn count_passages(g: Seq<Seq<Cell>>, d: int) -> int
    decreases g.len(),
{
    if g.len() == 0 {
        0
    } else {
        count_passages(g.drop_last(), d) + count_passages_row(g.last(), g.len() - 1, d)
    }
}

/// 1 when generation has reached this non-border cell, else 0.
pub open spec fn cell_free(c: Cell) -> int {
    if c.visited && !c.border {
        1
    } else {
        0
    }
}

pub open spec fn count_free_row(row: Seq<Cell>) -> int
    decreases row.len(),
{
    if row.len() == 0 {
        0
    } else {
        count_free_row(row.drop_last()) + cell_free(row.last())
    }
}

/// How many non-border cells generation has reached.
pub open spec fn count_free(g: Seq<Seq<Cell>>) -> int
    decreases g.len(),
{
    if g.len() == 0 {
        0
    } else {
        count_free(g.drop_last()) + count_free_row(g.last())
    }
}

proof fn lemma_passages_row_update(row: Seq<Cell>, j: int, c: Cell, x: int, d: int)
    requires
        0 <= j < row.len(),
    ensures
        count_passages_row(row.update(j, c), x, d) == count_passages_row(row, x, d)
            - cell_passages(row[j], x, j, d) + cell_passages(c, x, j, d),
    decreases row.len(),
{
    let r2 = row.update(j, c);
    if j == row.len() - 1 {
        assert(r2.drop_last() =~= row.drop_last());
        assert(r2.last() == c);
    } else {
        assert(r2.drop_last() =~= row.drop_last().update(j, c));
        assert(r2.last() == row.last());
        lemma_passages_row_update(row.drop_last(), j, c, x, d);
    }
}

proof fn lemma_passages_grid_update(g: Seq<Seq<Cell>>, i: int, row: Seq<Cell>, d: int)
    requires
        0 <= i < g.len(),
    ensures
        count_passages(g.update(i, row), d) == count_passages(g, d) - count_passages_row(
            g[i],
            i,
            d,
        ) + count_passages_row(row, i, d),
    decreases g.len(),
{
    let g2 = g.update(i, row);
    if i == g.len() - 1 {
        assert(g2.drop_last() =~= g.drop_last());
        assert(g2.last() == row);
    } else {
        assert(g2.drop_last() =~= g.drop_last().update(i, row));
        assert(g2.last() == g.last());
        lemma_passages_grid_update(g.drop_last(), i, row, d);
    }
}

proof fn lemma_free_row_update(row: Seq<Cell>, j: int, c: Cell)
    requires
        0 <= j < row.len(),
    ensures
        count_free_row(row.update(j, c)) == count_free_row(row) - cell_free(row[j]) + cell_free(c),
    decreases row.len(),
{
    let r2 = row.update(j, c);
    if j == row.len() - 1 {
        assert(r2.drop_last() =~= row.drop_last());
        assert(r2.last() == c);
    } else {
        assert(r2.drop_last() =~= row.drop_last().update(j, c));
        assert(r2.last() == row.last());
        lemma_free_row_update(row.drop_last(), j, c);
    }
}

proof fn lemma_free_grid_update(g: Seq<Seq<Cell>>, i: int, row: Seq<Cell>)
    requires
        0 <= i < g.len(),
    ensures
        count_free(g.update(i, row)) == count_free(g) - count_free_row(g[i]) + count_free_row(row),
    decreases g.len(),
{
    let g2 = g.update(i, row);
    if i == g.len() - 1 {
        assert(g2.drop_last() =~= g.drop_last());
        assert(g2.last() == row);
    } else {
        assert(g2.drop_last() =~= g.drop_last().update(i, row));
        assert(g2.last() == g.last());
        lemma_free_grid_update(g.drop_last(), i, row);
    }
}

/// A column of cells that contribute nothing counts zero.
proof fn lemma_counts_of_uncarved_row(row: Seq<Cell>, x: int, d: int)
    requires
        forall|j: int|
            0 <= j < row.len() ==> cell_passages(#[trigger] row[j], x, j, d) == 0 && cell_free(
                row[j],
            ) == 0,
    ensures
        count_passages_row(row, x, d) == 0,
        count_free_row(row) == 0,
    decreases row.len(),
{
    if row.len() > 0 {
        lemma_counts_of_uncarved_row(row.drop_last(), x, d);
    }
}

/// A grid of cells that contribute nothing counts zero.
proof fn lemma_counts_of_uncarved(g: Seq<Seq<Cell>>, d: int)
    requires
        forall|i: int, j: int|
            0 <= i < g.len() && 0 <= j < (#[trigger] g[i]).len() ==> cell_passages(
                #[trigger] g[i][j],
                i,
                j,
                d,
            ) == 0 && cell_free(g[i][j]) == 0,
    ensures
        count_passages(g, d) == 0,
        count_free(g) == 0,
    decreases g.len(),
{
    if g.len() > 0 {
        lemma_counts_of_uncarved(g.drop_last(), d);
        lemma_counts_of_uncarved_row(g.last(), g.len() - 1, d);
    }
}

/// A column whose reached non-border cells form one contiguous band
/// counts exactly the band's width.
proof fn lemma_count_free_row_band(row: Seq<Cell>, a: int, b: int)
    requires
        0 <= a <= b <= row.len(),
        forall|j: int|
            0 <= j < row.len() ==> cell_free(#[trigger] row[j]) == (if a <= j < b {
                1int
            } else {
                0int
            }),
    ensures
        count_free_row(row) == b - a,
    decreases row.len(),
{
    if row.len() > 0 {
        let last = row.len() - 1;
        if b <= last {
            assert forall|j: int| 0 <= j < row.drop_last().len() implies cell_free(
                #[trigger] row.drop_last()[j],
            ) == (if a <= j < b {
                1int
            } else {
                0int
            }) by {
                assert(row.drop_last()[j] == row[j]);
            }
            lemma_count_free_row_band(row.drop_last(), a, b);
        } else if a <= last {
            assert forall|j: int| 0 <= j < row.drop_last().len() implies cell_free(
                #[trigger] row.drop_last()[j],
            ) == (if a <= j < last {
                1int
            } else {
                0int
            }) by {
                assert(row.drop_last()[j] == row[j]);
            }
            lemma_count_free_row_band(row.drop_last(), a, last);
        } else {
            assert forall|j: int| 0 <= j < row.drop_last().len() implies cell_free(
                #[trigger] row.drop_last()[j],
            ) == (if last <= j < last {
                1int
            } else {
                0int
            }) by {
                assert(row.drop_last()[j] == row[j]);
            }
            lemma_count_free_row_band(row.drop_last(), last, last);
        }
    }
}

/// The band of reached cells in column x of a finished board of side d:
/// nothing on the two ring columns, the entrance above the interior in
/// column 1, the exit below it in column d-2, the bare interior elsewhere.
pub open spec fn free_band(d: int, x: int) -> (int, int) {
    if x <= 0 || x >= d - 1 {
        (0, 0)
    } else if x == 1 && x == d - 2 {
        (0, d)
    } else if x == 1 {
        (0, d - 1)
    } else if x == d - 2 {
        (1, d)
    } else {
        (1, d - 1)
    }
}

/// Reached cells over the first k columns of a finished board of side d.
pub open spec fn free_total(d: int, k: int) -> int
    decreases k,
{
    if k <= 0 {
        0
    } else {
        free_total(d, k - 1) + (free_band(d, k - 1).1 - free_band(d, k - 1).0)
    }
}

/// Summing a finished board column by column gives the band totals.
proof fn lemma_count_free_finished(g: Seq<Seq<Cell>>, d: int)
    requires
        d >= 3,
        g.len() <= d,
        forall|x: int| 0 <= x < g.len() ==> (#[trigger] g[x]).len() == d,
        forall|x: int, y: int|
            0 <= x < g.len() && 0 <= y < d ==> cell_free(#[trigger] g[x][y]) == (if free_band(
                d,
                x,
            ).0 <= y < free_band(d, x).1 {
                1int
            } else {
                0int
            }),
    ensures
        count_free(g) == free_total(d, g.len() as int),
    decreases g.len(),
{
    if g.len() > 0 {
        let x = g.len() - 1;
        assert forall|i: int| 0 <= i < g.drop_last().len() implies (
        #[trigger] g.drop_last()[i]).len() == d by {
            assert(g.drop_last()[i] == g[i]);
        }
        assert forall|i: int, y: int|
            0 <= i < g.drop_last().len() && 0 <= y < d implies cell_free(
            #[trigger] g.drop_last()[i][y],
        ) == (if free_band(d, i).0 <= y < free_band(d, i).1 {
            1int
        } else {
            0int
        }) by {
            assert(g.drop_last()[i] == g[i]);
        }
        lemma_count_free_finished(g.drop_last(), d);
        assert forall|j: int| 0 <= j < g.last().len() implies cell_free(
            #[trigger] g.last()[j],
        ) == (if free_band(d, x).0 <= j < free_band(d, x).1 {
            1int
        } else {
            0int
        }) by {
            assert(g.last() == g[x as int]);
        }
        lemma_count_free_row_band(g.last(), free_band(d, x).0, free_band(d, x).1);
    }
}

/// The running band total up to an interior column, in closed form.
proof fn lemma_free_total_closed(d: int, k: int)
    requires
        d >= 4,
        2 <= k <= d - 2,
    ensures
        free_total(d, k) == (d - 1) + (k - 2) * (d - 2),
    decreases k,
{
    if k == 2 {
        assert(free_total(d, 0) == 0);
        assert(free_total(d, 1) == 0);
        assert(free_total(d, 2) == d - 1);
    } else {
        lemma_free_total_closed(d, k - 1);
        assert(free_total(d, k) == free_total(d, k - 1) + (d - 2));
        assert((d - 1) + (k - 3) * (d - 2) + (d - 2) == (d - 1) + (k - 2) * (d - 2))
            by (nonlinear_arith);
    }
}

/// A finished board of side d holds (d-2)*(d-2) + 2 reached cells: its
/// interior plus the two openings.
proof fn lemma_free_total_full(d: int)
    requires
        d >= 3,
    ensures
        free_total(d, d) == (d - 2) * (d - 2) + 2,
{
    if d == 3 {
        assert(free_total(3, 0) == 0);
        assert(free_total(3, 1) == 0);
        assert(free_total(3, 2) == 3);
        assert(free_total(3, 3) == 3);
    } else {
        lemma_free_total_closed(d, d - 2);
        assert(free_total(d, d - 1) == free_total(d, d - 2) + (d - 1));
        assert(free_total(d, d) == free_total(d, d - 1));
        assert((d - 1) + (d - 4) * (d - 2) + (d - 1) == (d - 2) * (d - 2) + 2)
            by (nonlinear_arith);
    }
}

/// A path stays a path when one more open step is appended.
proof fn lemma_path_push(g: Seq<Seq<Cell>>, p: Seq<(int, int)>, b: (int, int))
    requires
        is_open_path(g, p),
        p.len() >= 1,
        adjacent_open(g, p[p.len() - 1], b),
    ensures
        is_open_path(g, p.push(b)),
{
    let pp = p.push(b);
    assert forall|i: int|
        #![trigger adjacent_open(g, pp[i], pp[i + 1])]
        0 <= i < pp.len() - 1 implies adjacent_open(g, pp[i], pp[i + 1]) by {
        if i < p.len() - 1 {
            assert(pp[i] == p[i]);
            assert(pp[i + 1] == p[i + 1]);
            assert(adjacent_open(g, p[i], p[i + 1]));
        } else {
            assert(pp[i] == p[p.len() - 1]);
            assert(pp[i + 1] == b);
        }
    }
}

/// In a fully explored grid whose border flags are exact and whose
/// entrance is visited, every interior cell is visited: exploration walks
/// from the entrance along row 1 and then down each column.
proof fn lemma_reach_interior(g: Seq<Seq<Cell>>, x: int, y: int)
    requires
        grid_wf(g),
        g.len() >= 3,
        border_flags_exact(g),
        fully_explored(g),
        g[1][0].visited,
        1 <= x <= g.len() - 2,
        1 <= y <= g.len() - 2,
    ensures
        g[x][y].visited,
    decreases x + y,
{
    let d = g.len() as int;
    if y == 1 {
        if x == 1 {
            assert(!g[1][0].border);
            assert(neighbors_visited(g, 1, 0));
        } else {
            lemma_reach_interior(g, x - 1, 1);
            assert(!g[x - 1][1].border);
            assert(neighbors_visited(g, x - 1, 1));
        }
    } else {
        lemma_reach_interior(g, x, y - 1);
        assert(!g[x][y - 1].border);
        assert(neighbors_visited(g, x, y - 1));
    }
}

/// Opening passage flags breaks no open path.
proof fn lemma_open_path_monotone(g1: Seq<Seq<Cell>>, g2: Seq<Seq<Cell>>, p: Seq<(int, int)>)
    requires
        g1.len() == g2.len(),
        is_open_path(g1, p),
        forall|x: int, y: int|
            in_grid(g1, x, y) ==> flags_monotone(g1[x][y], #[trigger] g2[x][y]),
    ensures
        is_open_path(g2, p),
{
    assert forall|i: int| 0 <= i < p.len() - 1 implies adjacent_open(g2, #[trigger] p[i], p[i + 1]) by {
        assert(adjacent_open(g1, p[i], p[i + 1]));
        assert(flags_monotone(g1[p[i].0][p[i].1], g2[p[i].0][p[i].1]));
        assert(flags_monotone(g1[p[i + 1].0][p[i + 1].1], g2[p[i + 1].0][p[i + 1].1]));
    }
}

/// A maze owns one square grid and the length of the entrance-to-exit path
/// found while carving it (0 when the exit was never reached).
pub struct Maze {
    contents: Vec<Vec<Cell>>,
    solution_length: usize,
}

impl Maze {
    /// The mathematical grid this maze holds.
    pub closed spec fn grid(self) -> Seq<Seq<Cell>> {
        grid_view(self.contents@)
    }

    pub closed spec fn sol_len(self) -> int {
        self.solution_length as int
    }

    pub open spec fn wf(self) -> bool {
        grid_wf(self.grid())
    }

    /// Everything generation promises of a finished maze: passages mirror
    /// each other; the border ring stays sealed while the two openings keep
    /// their outward cuts and the border flags mark exactly that ring; no
    /// reached cell is left unexplored and each is joined to the entrance
    /// by open passages; the carved passages count one less than the
    /// reached cells. On a board of side 3 or more every cell ends visited,
    /// the reached cells number exactly the interior plus the two openings,
    /// the carved passages one less, and the exit is reached; on the
    /// degenerate side-2 board the exit stays unreached. The `solution`
    /// flags trace exactly one duplicate-free entrance-to-exit passage path
    /// whose cell count is the recorded solution length.
    pub open spec fn generated(self) -> bool {
        &&& self.wf()
        &&& mirrored(self.grid())
        &&& border_sealed(self.grid())
        &&& openings_cut(self.grid())
        &&& border_flags_exact(self.grid())
        &&& fully_explored(self.grid())
        &&& count_passages(self.grid(), self.grid().len() as int) == count_free(self.grid()) - 1
        &&& forall|x: int, y: int|
            in_grid(self.grid(), x, y) && (#[trigger] self.grid()[x][y]).visited
                && !self.grid()[x][y].border ==> connected_to_entrance(self.grid(), x, y)
        &&& self.grid().len() >= 3 ==> forall|x: int, y: int|
            in_grid(self.grid(), x, y) ==> (#[trigger] self.grid()[x][y]).visited
        &&& self.grid().len() >= 3 ==> self.sol_len() > 0
        &&& self.grid().len() >= 3 ==> count_free(self.grid()) == (self.grid().len() - 2) * (
        self.grid().len() - 2) + 2
        &&& self.grid().len() >= 3 ==> count_passages(self.grid(), self.grid().len() as int) == (
        self.grid().len() - 2) * (self.grid().len() - 2) + 1
        &&& self.grid().len() == 2 ==> self.sol_len() == 0 && !self.grid()[0][1].visited
        &&& self.sol_len() == 0 ==> no_solution_marks(self.grid())
        &&& self.sol_len() > 0 ==> exists|p: Seq<(int, int)>|
            {
                &&& #[trigger] is_solution_path(self.grid(), p)
                &&& p.len() == self.sol_len()
                &&& solution_marks_match(self.grid(), p)
                &&& all_distinct(p)
            }
    }

    pub fn get_solution_length(&self) -> (n: usize)
        ensures
            n == self.sol_len(),
    {
        self.solution_length
    }

    /// Returns a reference to the maze contents.
    pub fn get_maze(&self) -> (g: &Vec<Vec<Cell>>)
        ensures
            grid_view(g@) == self.grid(),
    {
        &self.contents
    }

    /// Reads the cell at (x, y).
    fn cell_at(&self, x: usize, y: usize) -> (c: Cell)
        requires
            self.wf(),
            x < self.grid().len(),
            y < self.grid().len(),
        ensures
            c == self.grid()[x as int][y as int],
    {
        proof {
            assert(self.grid().len() == self.contents@.len());
            assert(self.grid()[x as int] == self.contents@[x as int]@);
        }
        self.contents[x][y]
    }

    /// Overwrites the cell at (x, y).
    fn set_cell(&mut self, x: usize, y: usize, c: Cell)
        requires
            old(self).wf(),
            x < old(self).grid().len(),
            y < old(self).grid().len(),
        ensures
            final(self).wf(),
            final(self).solution_length == old(self).solution_length,
            final(self).grid() == old(self).grid().update(
                x as int,
                old(self).grid()[x as int].update(y as int, c),
            ),
            count_unvisited(final(self).grid()) == count_unvisited(old(self).grid())
                - cell_unvisited(old(self).grid()[x as int][y as int]) + cell_unvisited(c),
            count_passages(final(self).grid(), old(self).grid().len() as int) == count_passages(
                old(self).grid(),
                old(self).grid().len() as int,
            ) - cell_passages(
                old(self).grid()[x as int][y as int],
                x as int,
                y as int,
                old(self).grid().len() as int,
            ) + cell_passages(c, x as int, y as int, old(self).grid().len() as int),
            count_free(final(self).grid()) == count_free(old(self).grid()) - cell_free(
                old(self).grid()[x as int][y as int],
            ) + cell_free(c),
    {
        proof {
            assert(self.grid().len() == self.contents@.len());
            assert(self.grid()[x as int] == self.contents@[x as int]@);
        }
        self.contents[x][y] = c;
        proof {
            assert(self.grid() =~= old(self).grid().update(
                x as int,
                old(self).grid()[x as int].update(y as int, c),
            ));
            lemma_count_grid_update(
                old(self).grid(),
                x as int,
                old(self).grid()[x as int].update(y as int, c),
            );
            lemma_count_row_update(old(self).grid()[x as int], y as int, c);
            lemma_passages_grid_update(
                old(self).grid(),
                x as int,
                old(self).grid()[x as int].update(y as int, c),
                old(self).grid().len() as int,
            );
            lemma_passages_row_update(
                old(self).grid()[x as int],
                y as int,
                c,
                x as int,
                old(self).grid().len() as int,
            );
            lemma_free_grid_update(
                old(self).grid(),
                x as int,
                old(self).grid()[x as int].update(y as int, c),
            );
            lemma_free_row_update(old(self).grid()[x as int], y as int, c);
        }
    }
}

/// Computes the prepared value of the cell at (x, y) of a d-by-d board.
fn prepared_cell_at(d: usize, x: usize, y: usize) -> (c: Cell)
    requires
        d >= 2,
        x < d,
        y < d,
    ensures
        c == prepared_cell(d as int, x as int, y as int),
{
    let mut c = Cell::new();
    if x == 1 && y == 0 {
        c.top = true;
    } else if x == d - 2 && y == d - 1 {
        c.bottom = true;
    } else if x == 0 || x == d - 1 || y == 0 || y == d - 1 {
        c.visited = true;
        c.border = true;
    }
    c
}

impl Maze {
    /// Resets the whole board to its prepared state: a sealed border ring
    /// with the entrance and exit carved back out, all closed inside.
    pub fn prepare_board(&mut self, maximum_pos: usize)
        requires
            old(self).wf(),
            maximum_pos == old(self).grid().len(),
        ensures
            final(self).wf(),
            final(self).grid().len() == old(self).grid().len(),
            final(self).sol_len() == old(self).sol_len(),
            forall|x: int, y: int|
                in_grid(final(self).grid(), x, y) ==> #[trigger] final(self).grid()[x][y]
                    == prepared_cell(final(self).grid().len() as int, x, y),
    {
        let ghost d = self.grid().len() as int;
        let mut x: usize = 0;
        while x < maximum_pos
            invariant
                self.wf(),
                self.grid().len() == d,
                maximum_pos == d,
                x <= maximum_pos,
                self.solution_length == old(self).solution_length,
                forall|i: int, j: int|
                    0 <= i < x && 0 <= j < d ==> #[trigger] self.grid()[i][j] == prepared_cell(
                        d,
                        i,
                        j,
                    ),
            decreases maximum_pos - x,
        {
            let mut y: usize = 0;
            while y < maximum_pos
                invariant
                    self.wf(),
                    self.grid().len() == d,
                    maximum_pos == d,
                    x < maximum_pos,
                    y <= maximum_pos,
                    self.solution_length == old(self).solution_length,
                    forall|i: int, j: int|
                        0 <= i < x && 0 <= j < d ==> #[trigger] self.grid()[i][j] == prepared_cell(
                            d,
                            i,
                            j,
                        ),
                    forall|j: int|
                        0 <= j < y ==> #[trigger] self.grid()[x as int][j] == prepared_cell(
                            d,
                            x as int,
                            j,
                        ),
                decreases maximum_pos - y,
            {
                let c = prepared_cell_at(maximum_pos, x, y);
                self.set_cell(x, y, c);
                y += 1;
            }
            x += 1;
        }
    }

    /// Returns the directions whose neighbor exists within the given bounds
    /// and is not yet visited, in the fixed order up, down, left, right.
    pub fn get_valid_directions(
        &self,
        current_pos: (usize, usize),
        size_constraints: (usize, usize),
    ) -> (dirs: Vec<Direction>)
        requires
            self.wf(),
            current_pos.0 < self.grid().len(),
            current_pos.1 < self.grid().len(),
            size_constraints.0 == self.grid().len(),
            size_constraints.1 == self.grid().len(),
        ensures
            dirs@ == valid_directions(
                self.grid(),
                current_pos.0 as int,
                current_pos.1 as int,
            ),
    {
        let mut directions: Vec<Direction> = Vec::new();
        let x = current_pos.0;
        let y = current_pos.1;
        let max_x = size_constraints.0;
        let max_y = size_constraints.1;
        if y > 0 && !self.cell_at(x, y - 1).visited {
            directions.push(Direction::UP);
        }
        if y < max_y - 1 && !self.cell_at(x, y + 1).visited {
            directions.push(Direction::DOWN);
        }
        if x > 0 && !self.cell_at(x - 1, y).visited {
            directions.push(Direction::LEFT);
        }
        if x < max_x - 1 && !self.cell_at(x + 1, y).visited {
            directions.push(Direction::RIGHT);
        }
        proof {
            assert(directions@ =~= valid_directions(self.grid(), x as int, y as int));
        }
        directions
    }

    /// Opens the passage from (x, y) toward `dir` on both sides at once and
    /// marks the newly entered neighbor visited.
    fn carve(&mut self, x: usize, y: usize, dir: Direction) -> (next: (usize, usize))
        requires
            old(self).wf(),
            x < old(self).grid().len(),
            y < old(self).grid().len(),
            dir_valid(old(self).grid(), x as int, y as int, dir),
            mirrored(old(self).grid()),
            borders_visited(old(self).grid()),
            unvisited_closed(old(self).grid()),
        ensures
            pt(next) == step_target(x as int, y as int, dir),
            final(self).wf(),
            final(self).grid().len() == old(self).grid().len(),
            final(self).sol_len() == old(self).sol_len(),
            count_unvisited(final(self).grid()) == count_unvisited(old(self).grid()) - 1,
            count_passages(final(self).grid(), old(self).grid().len() as int) == count_passages(
                old(self).grid(),
                old(self).grid().len() as int,
            ) + 1,
            count_free(final(self).grid()) == count_free(old(self).grid()) + 1,
            carve_effect(old(self).grid(), final(self).grid(), x as int, y as int, dir),
    {
        let d = self.contents.len();
        proof {
            assert(d == self.grid().len());
        }
        let tx: usize;
        let ty: usize;
        match dir {
            Direction::UP => {
                tx = x;
                ty = y - 1;
            },
            Direction::DOWN => {
                tx = x;
                ty = y + 1;
            },
            Direction::LEFT => {
                tx = x - 1;
                ty = y;
            },
            Direction::RIGHT => {
                tx = x + 1;
                ty = y;
            },
        }
        let mut c = self.cell_at(x, y);
        match dir {
            Direction::UP => c.top = true,
            Direction::DOWN => c.bottom = true,
            Direction::LEFT => c.left = true,
            Direction::RIGHT => c.right = true,
        }
        self.set_cell(x, y, c);
        let mut n = self.cell_at(tx, ty);
        match dir {
            Direction::UP => n.bottom = true,
            Direction::DOWN => n.top = true,
            Direction::LEFT => n.right = true,
            Direction::RIGHT => n.left = true,
        }
        n.visited = true;
        self.set_cell(tx, ty, n);
        proof {
            let g0 = old(self).grid();
            let t = step_target(x as int, y as int, dir);
            // the unvisited target keeps every inward flag closed, and by
            // mirroring so does the source flag of this carve, so exactly
            // one counted passage contribution appears
            assert(!g0[t.0][t.1].visited);
            if dir == Direction::RIGHT {
                assert(!g0[t.0][t.1].left);
                assert(!g0[x as int][y as int].right);
            } else if dir == Direction::DOWN {
                assert(!g0[t.0][t.1].top);
                assert(!g0[x as int][y as int].bottom);
            } else if dir == Direction::LEFT {
                assert(!g0[t.0][t.1].right);
            } else {
                assert(!g0[t.0][t.1].bottom);
            }
            assert(!g0[t.0][t.1].border);
        }
        (tx, ty)
    }
}

/// Every direction listed by `valid_directions` is a valid move.
proof fn lemma_valid_directions_sound(g: Seq<Seq<Cell>>, x: int, y: int, i: int)
    requires
        0 <= i < valid_directions(g, x, y).len(),
    ensures
        dir_valid(g, x, y, valid_directions(g, x, y)[i]),
{
    let s1 = if dir_valid(g, x, y, Direction::UP) {
        seq![Direction::UP]
    } else {
        Seq::<Direction>::empty()
    };
    let s2 = if dir_valid(g, x, y, Direction::DOWN) {
        seq![Direction::DOWN]
    } else {
        Seq::<Direction>::empty()
    };
    let s3 = if dir_valid(g, x, y, Direction::LEFT) {
        seq![Direction::LEFT]
    } else {
        Seq::<Direction>::empty()
    };
    let s4 = if dir_valid(g, x, y, Direction::RIGHT) {
        seq![Direction::RIGHT]
    } else {
        Seq::<Direction>::empty()
    };
    let v = valid_directions(g, x, y);
    assert(v == s1 + s2 + s3 + s4);
    if i < s1.len() {
        assert(v[i] == s1[0]);
    } else if i < s1.len() + s2.len() {
        assert(v[i] == s2[0]);
    } else if i < s1.len() + s2.len() + s3.len() {
        assert(v[i] == s3[0]);
    } else {
        assert(v[i] == s4[0]);
    }
}

impl Maze {
    /// The state the carving loop maintains: a well-formed mirrored grid
    /// with a sealed border and open entrance and exit cuts; a
    /// duplicate-free stack that is an open path of visited, non-border
    /// cells starting at the entrance; every reached cell off the stack
    /// fully explored and joined to the entrance by open passages; the exit,
    /// once visited, either already recorded or still on top of the stack;
    /// and solution marks that stay empty until the exit is reached and
    /// afterwards trace exactly the recorded path `sol_path`.
    spec fn carve_inv(self, stack: Seq<(usize, usize)>, sol_path: Seq<(int, int)>) -> bool {
        &&& self.wf()
        &&& mirrored(self.grid())
        &&& border_sealed(self.grid())
        &&& borders_visited(self.grid())
        &&& unvisited_closed(self.grid())
        &&& count_passages(self.grid(), self.grid().len() as int) == count_free(self.grid()) - 1
        &&& forall|i: int|
            0 <= i < stack.len() ==> (#[trigger] stack[i]).0 < self.grid().len() && stack[i].1
                < self.grid().len()
        &&& forall|i: int|
            0 <= i < stack.len() ==> (#[trigger] self.grid()[stack[i].0 as int][stack[i].1 as int]).visited
                && !self.grid()[stack[i].0 as int][stack[i].1 as int].border
        &&& stack.len() > 0 ==> stack[0] == (1usize, 0usize)
        &&& is_open_path(self.grid(), stack_points(stack))
        &&& openings_cut(self.grid())
        &&& border_flags_exact(self.grid())
        &&& self.grid()[1][0].visited
        &&& forall|i: int, j: int|
            #![trigger stack[i], stack[j]]
            0 <= i < j < stack.len() ==> stack[i] != stack[j]
        &&& self.grid()[self.grid().len() - 2][self.grid().len() - 1].visited ==> (self.sol_len()
            > 0 || (stack.len() > 0 && pt(stack[stack.len() - 1]) == exit_pos(
            self.grid().len() as int,
        )))
        &&& forall|x: int, y: int|
            in_grid(self.grid(), x, y) && (#[trigger] self.grid()[x][y]).visited
                && !self.grid()[x][y].border ==> connected_to_entrance(self.grid(), x, y)
        &&& forall|x: int, y: int|
            in_grid(self.grid(), x, y) && g_cell_visited_free(self.grid(), x, y) && !stack_holds(
                stack,
                x,
                y,
            ) ==> #[trigger] neighbors_visited(self.grid(), x, y)
        &&& self.sol_len() == 0 ==> no_solution_marks(self.grid())
        &&& self.sol_len() > 0 ==> is_solution_path(self.grid(), sol_path) && sol_path.len()
            == self.sol_len() && solution_marks_match(self.grid(), sol_path) && all_distinct(
            sol_path,
        )
    }

    /// First arrival at the exit: the stack is the unique tree path from
    /// the entrance, so record its length and flag each of its cells as
    /// the solution.
    fn mark_solution(&mut self, stack: &Vec<(usize, usize)>) -> (recorded: Ghost<
        Seq<(int, int)>,
    >)
        requires
            old(self).carve_inv(stack@, Seq::<(int, int)>::empty()),
            old(self).sol_len() == 0,
            stack@.len() > 0,
            pt(stack@[stack@.len() - 1]) == exit_pos(old(self).grid().len() as int),
        ensures
            final(self).carve_inv(stack@, recorded@),
            final(self).grid().len() == old(self).grid().len(),
            final(self).sol_len() == stack@.len(),
            count_unvisited(final(self).grid()) == count_unvisited(old(self).grid()),
    {
        let stack_len = stack.len();
        self.solution_length = stack_len;
        let ghost sol_path = stack_points(stack@);
        let ghost g_mark = self.grid();
        let ghost maximum_pos = self.grid().len();
        let mut k: usize = 0;
        while k < stack_len
            invariant
                self.wf(),
                self.grid().len() == maximum_pos,
                k <= stack_len,
                stack_len == stack@.len(),
                self.sol_len() == stack_len,
                g_mark.len() == maximum_pos,
                no_solution_marks(g_mark),
                count_unvisited(self.grid()) == count_unvisited(g_mark),
                count_passages(self.grid(), maximum_pos as int) == count_passages(
                    g_mark,
                    maximum_pos as int,
                ),
                count_free(self.grid()) == count_free(g_mark),
                forall|i: int|
                    0 <= i < stack@.len() ==> (#[trigger] stack@[i]).0 < maximum_pos
                        && stack@[i].1 < maximum_pos,
                forall|a: int, b: int|
                    in_grid(g_mark, a, b) ==> {
                        let c1 = g_mark[a][b];
                        let c2 = #[trigger] self.grid()[a][b];
                        c1.top == c2.top && c1.left == c2.left && c1.bottom == c2.bottom
                            && c1.right == c2.right && c1.visited == c2.visited && c1.border
                            == c2.border
                    },
                forall|a: int, b: int|
                    in_grid(g_mark, a, b) ==> ((#[trigger] self.grid()[a][b]).solution <==> (
                    exists|j: int| 0 <= j < k && pt(stack@[j]) == (a, b))),
            decreases stack_len - k,
        {
            let p = stack[k];
            let mut c = self.cell_at(p.0, p.1);
            c.solution = true;
            self.set_cell(p.0, p.1, c);
            proof {
                assert forall|a: int, b: int| in_grid(g_mark, a, b) implies ((
                #[trigger] self.grid()[a][b]).solution <==> (exists|j: int|
                    0 <= j < k + 1 && pt(stack@[j]) == (a, b))) by {
                    if (a, b) == pt(stack@[k as int]) {
                        assert(pt(stack@[k as int]) == (a, b));
                    }
                }
            }
            k += 1;
        }
        proof {
            let gn = self.grid();
            assert forall|x: int, y: int| in_grid(g_mark, x, y) implies flags_monotone(
                g_mark[x][y],
                #[trigger] gn[x][y],
            ) by {}
            lemma_open_path_monotone(g_mark, gn, stack_points(stack@));
            assert(unvisited_closed(gn)) by {
                assert forall|a: int, b: int|
                    in_grid(gn, a, b) && !(#[trigger] gn[a][b]).visited implies !gn[a][b].left
                    && !gn[a][b].right && (b > 0 ==> !gn[a][b].top) && (b < gn.len() - 1
                    ==> !gn[a][b].bottom) by {
                    assert(!g_mark[a][b].visited);
                    assert(gn[a][b].left == g_mark[a][b].left);
                    assert(gn[a][b].right == g_mark[a][b].right);
                    assert(gn[a][b].top == g_mark[a][b].top);
                    assert(gn[a][b].bottom == g_mark[a][b].bottom);
                }
            }
            assert(mirrored(gn)) by {
                assert forall|x: int, y: int|
                    0 <= x < gn.len() - 1 && 0 <= y < gn.len() implies ((
                #[trigger] gn[x][y]).right <==> gn[x + 1][y].left) by {
                    assert(gn[x][y].right == g_mark[x][y].right);
                    assert(gn[x + 1][y].left == g_mark[x + 1][y].left);
                }
                assert forall|x: int, y: int|
                    0 <= x < gn.len() && 0 <= y < gn.len() - 1 implies ((
                #[trigger] gn[x][y]).bottom <==> gn[x][y + 1].top) by {
                    assert(gn[x][y].bottom == g_mark[x][y].bottom);
                    assert(gn[x][y + 1].top == g_mark[x][y + 1].top);
                }
            }
            assert(border_sealed(gn)) by {
                assert forall|x: int, y: int|
                    in_grid(gn, x, y) && on_ring(gn.len() as int, x, y) && (x, y) != entrance_pos(
                    gn.len() as int,
                ) && (x, y) != exit_pos(gn.len() as int) implies #[trigger] gn[x][y]
                    == sealed_cell() by {
                    assert(g_mark[x][y] == sealed_cell());
                    assert(!(exists|j: int| 0 <= j < stack@.len() && pt(stack@[j]) == (x, y)))
                        by {
                        if exists|j: int| 0 <= j < stack@.len() && pt(stack@[j]) == (x, y) {
                            let j = choose|j: int|
                                0 <= j < stack@.len() && pt(stack@[j]) == (x, y);
                            assert(!g_mark[stack@[j].0 as int][stack@[j].1 as int].border);
                        }
                    }
                }
            }
            assert(sol_path.len() == stack@.len());
            assert(solution_marks_match(gn, sol_path)) by {
                assert forall|a: int, b: int| in_grid(gn, a, b) implies ((
                #[trigger] gn[a][b]).solution <==> sol_path.contains((a, b))) by {
                    if gn[a][b].solution {
                        let j = choose|j: int| 0 <= j < stack@.len() && pt(stack@[j]) == (a, b);
                        assert(sol_path[j] == (a, b));
                    }
                    if sol_path.contains((a, b)) {
                        let j = choose|j: int| 0 <= j < sol_path.len() && sol_path[j] == (a, b);
                        assert(pt(stack@[j]) == (a, b));
                    }
                }
            }
            assert(is_solution_path(gn, sol_path)) by {
                if stack@.len() < 2 {
                    assert(stack@[0] == (1usize, 0usize));
                    assert(pt(stack@[stack@.len() - 1]) == (maximum_pos - 2, maximum_pos - 1));
                }
                assert(sol_path[0] == pt(stack@[0]));
                assert(sol_path[sol_path.len() - 1] == pt(stack@[stack@.len() - 1]));
            }
            assert(all_distinct(sol_path)) by {
                assert forall|i: int, j: int| 0 <= i < j < sol_path.len() implies sol_path[i]
                    != sol_path[j] by {
                    assert(stack@[i] != stack@[j]);
                    assert(sol_path[i] == pt(stack@[i]));
                    assert(sol_path[j] == pt(stack@[j]));
                }
            }
            let d = maximum_pos as int;
            assert(openings_cut(gn)) by {
                assert(gn[1][0].top == g_mark[1][0].top);
                assert(gn[d - 2][d - 1].bottom == g_mark[d - 2][d - 1].bottom);
            }
            assert(border_flags_exact(gn)) by {
                assert forall|a: int, b: int| in_grid(gn, a, b) implies ((
                #[trigger] gn[a][b]).border <==> (on_ring(d, a, b) && (a, b) != entrance_pos(d)
                    && (a, b) != exit_pos(d))) by {
                    assert(gn[a][b].border == g_mark[a][b].border);
                }
            }
            assert(gn[1][0].visited == g_mark[1][0].visited);
            assert forall|a: int, b: int|
                in_grid(gn, a, b) && g_cell_visited_free(gn, a, b) && !stack_holds(stack@, a, b)
                implies #[trigger] neighbors_visited(gn, a, b) by {
                assert(gn[a][b].visited == g_mark[a][b].visited);
                assert(gn[a][b].border == g_mark[a][b].border);
                assert(g_cell_visited_free(g_mark, a, b));
                assert(neighbors_visited(g_mark, a, b));
                assert(neighbors_visited(gn, a, b)) by {
                    if b > 0 {
                        assert(gn[a][b - 1].visited == g_mark[a][b - 1].visited);
                    }
                    if b < d - 1 {
                        assert(gn[a][b + 1].visited == g_mark[a][b + 1].visited);
                    }
                    if a > 0 {
                        assert(gn[a - 1][b].visited == g_mark[a - 1][b].visited);
                    }
                    if a < d - 1 {
                        assert(gn[a + 1][b].visited == g_mark[a + 1][b].visited);
                    }
                }
            }
            assert forall|a: int, b: int|
                in_grid(gn, a, b) && (#[trigger] gn[a][b]).visited && !gn[a][b].border implies
                connected_to_entrance(gn, a, b) by {
                assert(gn[a][b].visited == g_mark[a][b].visited);
                assert(gn[a][b].border == g_mark[a][b].border);
                assert(connected_to_entrance(g_mark, a, b));
                let p0 = choose|p: Seq<(int, int)>| entrance_path(g_mark, p, a, b);
                lemma_open_path_monotone(g_mark, gn, p0);
                assert(entrance_path(gn, p0, a, b));
                assert(connected_to_entrance(gn, a, b));
            }
        }
        Ghost(sol_path)
    }

    /// One carving step: from the cell on top of the stack, either open a
    /// passage toward a randomly chosen unvisited neighbor and advance onto
    /// it, or backtrack off a dead end.
    #[verifier::rlimit(100)]
    fn advance<P: DirectionPicker>(
        &mut self,
        stack: &mut Vec<(usize, usize)>,
        picker: &mut P,
        Ghost(sol_path): Ghost<Seq<(int, int)>>,
    )
        requires
            old(self).carve_inv(old(stack)@, sol_path),
            old(stack)@.len() > 0,
            pt(old(stack)@[old(stack)@.len() - 1]) == exit_pos(old(self).grid().len() as int)
                ==> old(self).sol_len() > 0,
        ensures
            final(self).carve_inv(final(stack)@, sol_path),
            final(self).grid().len() == old(self).grid().len(),
            final(self).sol_len() == old(self).sol_len(),
            count_unvisited(final(self).grid()) < count_unvisited(old(self).grid()) || (
            count_unvisited(final(self).grid()) == count_unvisited(old(self).grid())
                && final(stack)@.len() < old(stack)@.len()),
    {
        let maximum_pos = self.contents.len();
        proof {
            assert(maximum_pos == self.grid().len());
        }
        let stack_len = stack.len();
        let current_pos = stack[stack_len - 1];
        let cx = current_pos.0;
        let cy = current_pos.1;
        let valid = self.get_valid_directions(current_pos, (maximum_pos, maximum_pos));
        if valid.len() > 0 {
            let idx = picker.pick(valid.len());
            let direction = valid[idx];
            proof {
                lemma_valid_directions_sound(self.grid(), cx as int, cy as int, idx as int);
            }
            let ghost g_prev = self.grid();
            let ghost sp_prev = stack_points(stack@);
            let next = self.carve(cx, cy, direction);
            stack.push(next);
            proof {
                let gn = self.grid();
                let cp = (cx as int, cy as int);
                let tp = step_target(cx as int, cy as int, direction);
                lemma_carve_pointwise(g_prev, gn, cx as int, cy as int, direction);
                lemma_carve_mirrored(g_prev, gn, cx as int, cy as int, direction);
                lemma_carve_border(g_prev, gn, cx as int, cy as int, direction);
                assert(unvisited_closed(gn)) by {
                    assert forall|a: int, b: int|
                        in_grid(gn, a, b) && !(#[trigger] gn[a][b]).visited implies !gn[a][b].left
                        && !gn[a][b].right && (b > 0 ==> !gn[a][b].top) && (b < gn.len() - 1
                        ==> !gn[a][b].bottom) by {
                        assert(gn[cp.0][cp.1].visited);
                        assert(gn[tp.0][tp.1].visited);
                        assert(gn[a][b] == g_prev[a][b]);
                    }
                }
                lemma_open_path_monotone(g_prev, gn, sp_prev);
                assert(stack_points(stack@) =~= sp_prev.push(pt(next)));
                assert(adjacent_open(gn, cp, tp)) by {
                    assert(gn[cp.0][cp.1] == with_passage(g_prev[cp.0][cp.1], direction));
                    assert(gn[tp.0][tp.1] == with_visited(
                        with_passage(g_prev[tp.0][tp.1], opposite(direction)),
                    ));
                }
                assert(is_open_path(gn, stack_points(stack@))) by {
                    let spn = stack_points(stack@);
                    assert forall|i: int| 0 <= i < spn.len() - 1 implies adjacent_open(
                        gn,
                        #[trigger] spn[i],
                        spn[i + 1],
                    ) by {
                        if i < sp_prev.len() - 1 {
                            assert(spn[i] == sp_prev[i]);
                            assert(spn[i + 1] == sp_prev[i + 1]);
                            assert(adjacent_open(gn, sp_prev[i], sp_prev[i + 1]));
                        } else {
                            assert(spn[i] == cp);
                            assert(spn[i + 1] == tp);
                        }
                    }
                }
                assert forall|i: int| 0 <= i < stack@.len() implies (#[trigger] gn[stack@[i].0 as int][stack@[i].1 as int]).visited
                    && !gn[stack@[i].0 as int][stack@[i].1 as int].border by {
                    if i < stack@.len() - 1 {
                        assert(stack@[i] == old(stack)@[i]);
                        assert(g_prev[stack@[i].0 as int][stack@[i].1 as int].visited);
                        assert(!g_prev[stack@[i].0 as int][stack@[i].1 as int].border);
                    } else {
                        assert(stack@[i] == next);
                        assert(gn[tp.0][tp.1].visited);
                        assert(!g_prev[tp.0][tp.1].visited);
                        assert(!g_prev[tp.0][tp.1].border);
                    }
                }
                if self.sol_len() > 0 {
                    lemma_open_path_monotone(g_prev, gn, sol_path);
                    assert(solution_marks_match(gn, sol_path)) by {
                        assert forall|a: int, b: int| in_grid(gn, a, b) implies ((
                        #[trigger] gn[a][b]).solution <==> sol_path.contains((a, b))) by {
                            assert(gn[a][b].solution == g_prev[a][b].solution);
                        }
                    }
                } else {
                    assert(no_solution_marks(gn)) by {
                        assert forall|a: int, b: int| in_grid(gn, a, b) implies !(
                        #[trigger] gn[a][b]).solution by {
                            assert(gn[a][b].solution == g_prev[a][b].solution);
                        }
                    }
                }
                let d = g_prev.len() as int;
                assert(openings_cut(gn)) by {
                    assert(flags_monotone(g_prev[1][0], gn[1][0]));
                    assert(flags_monotone(g_prev[d - 2][d - 1], gn[d - 2][d - 1]));
                }
                assert(border_flags_exact(gn)) by {
                    assert forall|a: int, b: int| in_grid(gn, a, b) implies ((
                    #[trigger] gn[a][b]).border <==> (on_ring(d, a, b) && (a, b) != entrance_pos(
                        d,
                    ) && (a, b) != exit_pos(d))) by {
                        assert(gn[a][b].border == g_prev[a][b].border);
                    }
                }
                assert(gn[1][0].visited);
                assert forall|i: int, j: int|
                    #![trigger stack@[i], stack@[j]]
                    0 <= i < j < stack@.len() implies stack@[i] != stack@[j] by {
                    if j < stack@.len() - 1 {
                        assert(stack@[i] == old(stack)@[i]);
                        assert(stack@[j] == old(stack)@[j]);
                    } else {
                        assert(stack@[j] == next);
                        assert(stack@[i] == old(stack)@[i]);
                        if stack@[i] == next {
                            assert(pt(old(stack)@[i]) == tp);
                            assert(g_prev[tp.0][tp.1].visited);
                        }
                    }
                }
                let ep = exit_pos(d);
                assert(gn[ep.0][ep.1].visited ==> (self.sol_len() > 0 || (stack@.len() > 0 && pt(
                    stack@[stack@.len() - 1],
                ) == ep))) by {
                    if gn[ep.0][ep.1].visited {
                        if tp == ep {
                            assert(pt(stack@[stack@.len() - 1]) == tp);
                        } else if cp == ep {
                            assert(old(self).sol_len() > 0);
                        } else {
                            assert(gn[ep.0][ep.1] == g_prev[ep.0][ep.1]);
                        }
                    }
                }
                assert forall|a: int, b: int|
                    in_grid(gn, a, b) && g_cell_visited_free(gn, a, b) && !stack_holds(
                        stack@,
                        a,
                        b,
                    ) implies #[trigger] neighbors_visited(gn, a, b) by {
                    assert((a, b) != tp) by {
                        if (a, b) == tp {
                            assert(pt(stack@[stack@.len() - 1]) == tp);
                        }
                    }
                    assert((a, b) != cp) by {
                        if (a, b) == cp {
                            assert(stack@[old(stack)@.len() - 1] == old(stack)@[old(stack)@.len()
                                - 1]);
                            assert(pt(stack@[old(stack)@.len() - 1]) == cp);
                        }
                    }
                    assert(!stack_holds(old(stack)@, a, b)) by {
                        if stack_holds(old(stack)@, a, b) {
                            let i = choose|i: int|
                                0 <= i < old(stack)@.len() && pt(old(stack)@[i]) == (a, b);
                            assert(stack@[i] == old(stack)@[i]);
                            assert(pt(stack@[i]) == (a, b));
                        }
                    }
                    assert(gn[a][b] == g_prev[a][b]);
                    assert(g_cell_visited_free(g_prev, a, b));
                    assert(neighbors_visited(g_prev, a, b));
                    assert(neighbors_visited(gn, a, b)) by {
                        if b > 0 {
                            assert(g_prev[a][b - 1].visited ==> gn[a][b - 1].visited);
                        }
                        if b < d - 1 {
                            assert(g_prev[a][b + 1].visited ==> gn[a][b + 1].visited);
                        }
                        if a > 0 {
                            assert(g_prev[a - 1][b].visited ==> gn[a - 1][b].visited);
                        }
                        if a < d - 1 {
                            assert(g_prev[a + 1][b].visited ==> gn[a + 1][b].visited);
                        }
                    }
                }
                assert forall|a: int, b: int|
                    in_grid(gn, a, b) && (#[trigger] gn[a][b]).visited && !gn[a][b].border implies
                    connected_to_entrance(gn, a, b) by {
                    if (a, b) == tp {
                        assert(g_cell_visited_free(g_prev, cp.0, cp.1));
                        assert(connected_to_entrance(g_prev, cp.0, cp.1));
                        let p0 = choose|p: Seq<(int, int)>| entrance_path(g_prev, p, cp.0, cp.1);
                        lemma_open_path_monotone(g_prev, gn, p0);
                        lemma_path_push(gn, p0, tp);
                        assert(entrance_path(gn, p0.push(tp), a, b)) by {
                            assert(p0.push(tp)[0] == p0[0]);
                        }
                        assert(connected_to_entrance(gn, a, b));
                    } else {
                        assert(g_prev[a][b].visited && !g_prev[a][b].border) by {
                            if (a, b) != cp {
                                assert(gn[a][b] == g_prev[a][b]);
                            }
                        }
                        assert(connected_to_entrance(g_prev, a, b));
                        let p0 = choose|p: Seq<(int, int)>| entrance_path(g_prev, p, a, b);
                        lemma_open_path_monotone(g_prev, gn, p0);
                        assert(entrance_path(gn, p0, a, b));
                        assert(connected_to_entrance(gn, a, b));
                    }
                }
            }
        } else {
            let ghost sp_prev = stack_points(stack@);
            let _dead_end = stack.pop();
            proof {
                let g = self.grid();
                let d = g.len() as int;
                let cp = (cx as int, cy as int);
                let spn = stack_points(stack@);
                assert(spn =~= sp_prev.subrange(0, sp_prev.len() - 1));
                assert forall|i: int| 0 <= i < spn.len() - 1 implies adjacent_open(
                    self.grid(),
                    #[trigger] spn[i],
                    spn[i + 1],
                ) by {
                    assert(spn[i] == sp_prev[i]);
                    assert(spn[i + 1] == sp_prev[i + 1]);
                    assert(adjacent_open(self.grid(), sp_prev[i], sp_prev[i + 1]));
                }
                assert forall|i: int, j: int|
                    #![trigger stack@[i], stack@[j]]
                    0 <= i < j < stack@.len() implies stack@[i] != stack@[j] by {
                    assert(stack@[i] == old(stack)@[i]);
                    assert(stack@[j] == old(stack)@[j]);
                }
                // the popped cell had no valid direction left, so each of
                // its in-grid neighbors is visited
                assert(neighbors_visited(g, cp.0, cp.1)) by {
                    assert(valid_directions(g, cp.0, cp.1).len() == 0);
                    if cy > 0 && !g[cp.0][cp.1 - 1].visited {
                        assert(dir_valid(g, cp.0, cp.1, Direction::UP));
                        assert(valid_directions(g, cp.0, cp.1).len() >= 1);
                    }
                    if cp.1 < d - 1 && !g[cp.0][cp.1 + 1].visited {
                        assert(dir_valid(g, cp.0, cp.1, Direction::DOWN));
                        assert(valid_directions(g, cp.0, cp.1).len() >= 1);
                    }
                    if cx > 0 && !g[cp.0 - 1][cp.1].visited {
                        assert(dir_valid(g, cp.0, cp.1, Direction::LEFT));
                        assert(valid_directions(g, cp.0, cp.1).len() >= 1);
                    }
                    if cp.0 < d - 1 && !g[cp.0 + 1][cp.1].visited {
                        assert(dir_valid(g, cp.0, cp.1, Direction::RIGHT));
                        assert(valid_directions(g, cp.0, cp.1).len() >= 1);
                    }
                }
                assert forall|a: int, b: int|
                    in_grid(g, a, b) && g_cell_visited_free(g, a, b) && !stack_holds(stack@, a, b)
                    implies #[trigger] neighbors_visited(g, a, b) by {
                    if (a, b) == cp {
                    } else if stack_holds(old(stack)@, a, b) {
                        let i = choose|i: int|
                            0 <= i < old(stack)@.len() && pt(old(stack)@[i]) == (a, b);
                        if i < old(stack)@.len() - 1 {
                            assert(stack@[i] == old(stack)@[i]);
                            assert(pt(stack@[i]) == (a, b));
                        } else {
                            assert(pt(old(stack)@[i]) == cp);
                        }
                    } else {
                        assert(neighbors_visited(g, a, b));
                    }
                }
                let ep = exit_pos(d);
                assert(g[ep.0][ep.1].visited ==> (self.sol_len() > 0 || (stack@.len() > 0 && pt(
                    stack@[stack@.len() - 1],
                ) == ep))) by {
                    if g[ep.0][ep.1].visited {
                        if pt(old(stack)@[old(stack)@.len() - 1]) == ep {
                            assert(old(self).sol_len() > 0);
                        }
                    }
                }
            }
        }
    }

    /// Runs the full generation over a freshly prepared board: a randomized
    /// iterative depth-first carve with backtracking, drawing each direction
    /// choice from `picker`. The entrance-to-exit path is recorded and its
    /// cells flagged the moment the exit is first reached; it is exactly the
    /// traversal stack of that moment, so no second search ever runs.
    pub fn generate_with<P: DirectionPicker>(&mut self, picker: &mut P)
        requires
            old(self).wf(),
        ensures
            final(self).wf(),
            final(self).grid().len() == old(self).grid().len(),
            final(self).generated(),
    {
        let maximum_pos = self.contents.len();
        proof {
            assert(maximum_pos == self.grid().len());
        }
        let sol_end_x = maximum_pos - 2;
        let sol_end_y = maximum_pos - 1;
        self.prepare_board(maximum_pos);
        self.solution_length = 0;
        let ghost g0 = self.grid();
        proof {
            assert forall|i: int, j: int|
                0 <= i < g0.len() && 0 <= j < (#[trigger] g0[i]).len() implies cell_passages(
                #[trigger] g0[i][j],
                i,
                j,
                maximum_pos as int,
            ) == 0 && cell_free(g0[i][j]) == 0 by {
                assert(g0[i][j] == prepared_cell(maximum_pos as int, i, j));
            }
            lemma_counts_of_uncarved(g0, maximum_pos as int);
        }
        let mut e = self.cell_at(1, 0);
        e.visited = true;
        self.set_cell(1, 0, e);
        let mut stack: Vec<(usize, usize)> = Vec::new();
        stack.push((1, 0));
        let ghost mut sol_path: Seq<(int, int)> = Seq::empty();
        proof {
            let d = maximum_pos as int;
            let g1 = self.grid();
            assert(count_passages(g1, d) == 0);
            assert(count_free(g1) == 1);
            assert(unvisited_closed(g1)) by {
                assert forall|a: int, b: int|
                    in_grid(g1, a, b) && !(#[trigger] g1[a][b]).visited implies !g1[a][b].left
                    && !g1[a][b].right && (b > 0 ==> !g1[a][b].top) && (b < g1.len() - 1
                    ==> !g1[a][b].bottom) by {
                    if (a, b) != (1int, 0int) {
                        assert(g1[a][b] == prepared_cell(d, a, b));
                    }
                }
            }
            assert(openings_cut(g1)) by {
                assert(g1[d - 2][d - 1] == prepared_cell(d, d - 2, d - 1));
            }
            assert(border_flags_exact(g1)) by {
                assert forall|a: int, b: int| in_grid(g1, a, b) implies ((
                #[trigger] g1[a][b]).border <==> (on_ring(d, a, b) && (a, b) != entrance_pos(d)
                    && (a, b) != exit_pos(d))) by {
                    if (a, b) != (1int, 0int) {
                        assert(g1[a][b] == prepared_cell(d, a, b));
                    }
                }
            }
            assert(!g1[d - 2][d - 1].visited) by {
                assert(g1[d - 2][d - 1] == prepared_cell(d, d - 2, d - 1));
            }
            assert forall|a: int, b: int|
                in_grid(g1, a, b) && g_cell_visited_free(g1, a, b) && !stack_holds(stack@, a, b)
                implies #[trigger] neighbors_visited(g1, a, b) by {
                if (a, b) == (1int, 0int) {
                    assert(pt(stack@[0]) == (a, b));
                } else {
                    assert(g1[a][b] == prepared_cell(d, a, b));
                }
            }
            assert forall|a: int, b: int|
                in_grid(g1, a, b) && (#[trigger] g1[a][b]).visited && !g1[a][b].border implies
                connected_to_entrance(g1, a, b) by {
                if (a, b) == (1int, 0int) {
                    let p0 = seq![(1int, 0int)];
                    assert(is_open_path(g1, p0));
                    assert(entrance_path(g1, p0, a, b));
                    assert(connected_to_entrance(g1, a, b));
                } else {
                    assert(g1[a][b] == prepared_cell(d, a, b));
                }
            }
            assert(self.carve_inv(stack@, sol_path));
        }
        while stack.len() > 0
            invariant
                self.carve_inv(stack@, sol_path),
                self.grid().len() == maximum_pos,
                2 <= maximum_pos,
                sol_end_x == maximum_pos - 2,
                sol_end_y == maximum_pos - 1,
            decreases count_unvisited(self.grid()), stack@.len(),
        {
            let stack_len = stack.len();
            let current_pos = stack[stack_len - 1];
            if current_pos.0 == sol_end_x && current_pos.1 == sol_end_y && self.solution_length
                == 0 {
                let recorded = self.mark_solution(&stack);
                proof {
                    sol_path = recorded@;
                }
            }
            self.advance(&mut stack, picker, Ghost(sol_path));
            proof {
                lemma_count_nonneg(self.grid());
            }
        }
        proof {
            let gf = self.grid();
            let d = maximum_pos as int;
            assert(fully_explored(gf)) by {
                assert forall|x: int, y: int|
                    in_grid(gf, x, y) && gf[x][y].visited && !gf[x][y].border implies #[trigger] neighbors_visited(
                    gf,
                    x,
                    y,
                ) by {
                    assert(!stack_holds(stack@, x, y));
                    assert(g_cell_visited_free(gf, x, y));
                }
            }
            if maximum_pos >= 3 {
                assert forall|x: int, y: int| in_grid(gf, x, y) implies (
                #[trigger] gf[x][y]).visited by {
                    if 1 <= x <= d - 2 && 1 <= y <= d - 2 {
                        lemma_reach_interior(gf, x, y);
                    } else if (x, y) == (1int, 0int) {
                    } else if (x, y) == (d - 2, d - 1) {
                        lemma_reach_interior(gf, d - 2, d - 2);
                        assert(!gf[d - 2][d - 2].border);
                        assert(neighbors_visited(gf, d - 2, d - 2));
                    } else {
                        assert(gf[x][y].border);
                    }
                }
                assert(self.sol_len() > 0) by {
                    assert(gf[d - 2][d - 1].visited);
                }
                assert(count_free(gf) == (d - 2) * (d - 2) + 2) by {
                    assert forall|x: int, y: int| 0 <= x < gf.len() && 0 <= y < d implies
                        cell_free(#[trigger] gf[x][y]) == (if free_band(d, x).0 <= y < free_band(
                        d,
                        x,
                    ).1 {
                        1int
                    } else {
                        0int
                    }) by {
                        assert(gf[x][y].visited);
                        assert(gf[x][y].border <==> (on_ring(d, x, y) && (x, y) != entrance_pos(
                            d,
                        ) && (x, y) != exit_pos(d)));
                    }
                    lemma_count_free_finished(gf, d);
                    lemma_free_total_full(d);
                }
            }
            if maximum_pos == 2 {
                assert(self.sol_len() == 0) by {
                    if self.sol_len() > 0 {
                        assert(is_solution_path(gf, sol_path));
                        assert(adjacent_open(gf, sol_path[0], sol_path[1]));
                        assert(gf[0][0] == sealed_cell());
                        assert(gf[1][1] == sealed_cell());
                    }
                }
                assert(!gf[0][1].visited);
            }
            if self.sol_len() > 0 {
                assert(is_solution_path(gf, sol_path) && sol_path.len() == self.sol_len()
                    && solution_marks_match(gf, sol_path) && all_distinct(sol_path));
            }
        }
    }

    /// Runs the full generation with directions drawn from the thread's
    /// random number generator.
    pub fn generate(&mut self)
        requires
            old(self).wf(),
        ensures
            final(self).wf(),
            final(self).grid().len() == old(self).grid().len(),
            final(self).generated(),
    {
        let mut picker = RandomPicker {  };
        self.generate_with(&mut picker)
    }

    /// Constructs a new `Maze` with a given size: a board of side length
    /// `size + 2` (the extra ring is the sealed border), fully generated.
    pub fn new(size: u16) -> (maze: Maze)
        ensures
            maze.wf(),
            maze.grid().len() == size as int + 2,
            maze.generated(),
    {
        let d = size as usize + 2;
        let mut contents: Vec<Vec<Cell>> = Vec::new();
        let mut x: usize = 0;
        while x < d
            invariant
                x <= d,
                contents@.len() == x,
                forall|i: int| 0 <= i < x ==> (#[trigger] contents@[i])@.len() == d,
            decreases d - x,
        {
            let mut row: Vec<Cell> = Vec::new();
            let mut y: usize = 0;
            while y < d
                invariant
                    y <= d,
                    row@.len() == y,
                decreases d - y,
            {
                row.push(Cell::new());
                y += 1;
            }
            contents.push(row);
            x += 1;
        }
        let mut maze = Maze { contents, solution_length: 0 };
        proof {
            assert forall|i: int| 0 <= i < maze.grid().len() implies (#[trigger] maze.grid()[i]).len()
                == maze.grid().len() by {
                assert(maze.grid()[i] == maze.contents@[i]@);
            }
        }
        maze.generate();
        maze
    }
}


/// Board preparation is deterministic: any two prepared boards of one
/// dimension hold exactly the same cells.
pub proof fn lemma_preparation_deterministic(g1: Seq<Seq<Cell>>, g2: Seq<Seq<Cell>>)
    requires
        grid_wf(g1),
        grid_wf(g2),
        g1.len() == g2.len(),
        forall|x: int, y: int|
            in_grid(g1, x, y) ==> #[trigger] g1[x][y] == prepared_cell(g1.len() as int, x, y),
        forall|x: int, y: int|
            in_grid(g2, x, y) ==> #[trigger] g2[x][y] == prepared_cell(g2.len() as int, x, y),
    ensures
        g1 == g2,
{
    assert forall|i: int| 0 <= i < g1.len() implies g1[i] == g2[i] by {
        assert(g1[i] =~= g2[i]);
    }
    assert(g1 =~= g2);
}

/// Of two generated mazes, the one whose recorded solution path is longer;
/// the incumbent wins ties. A duration- or count-bounded batch keeps its
/// best candidate by folding this over every maze it generates.
pub fn keep_larger(best: Maze, candidate: Maze) -> (winner: Maze)
    ensures
        winner == best || winner == candidate,
        winner.sol_len() >= best.sol_len(),
        winner.sol_len() >= candidate.sol_len(),
        candidate.sol_len() > best.sol_len() ==> winner == candidate,
        candidate.sol_len() <= best.sol_len() ==> winner == best,
{
    if candidate.get_solution_length() > best.get_solution_length() {
        candidate
    } else {
        best
    }
}

} // verus!
