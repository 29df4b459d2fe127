use maze_gen::maze::{Cell, Maze};
use maze_gen::render::{pixel_color, Color, CELL_SIZE, WALL_THICKNESS};

fn floor_cell() -> Cell {
    let mut c = Cell::new();
    c.visited = true;
    c
}

#[test]
fn wall_strip_is_black() {
    let c = floor_cell();
    // every passage closed: all four edge strips draw the wall color
    assert_eq!(pixel_color(c, 0, 5, true), Color { r: 0, g: 0, b: 0 });
    assert_eq!(pixel_color(c, 5, 0, true), Color { r: 0, g: 0, b: 0 });
    assert_eq!(pixel_color(c, CELL_SIZE - WALL_THICKNESS, 5, true), Color { r: 0, g: 0, b: 0 });
    assert_eq!(pixel_color(c, 5, CELL_SIZE - WALL_THICKNESS, true), Color { r: 0, g: 0, b: 0 });
}

#[test]
fn open_passage_drops_the_wall_line() {
    let mut c = floor_cell();
    c.left = true;
    assert_eq!(pixel_color(c, 0, 5, false), Color { r: 255, g: 255, b: 255 });
    // the other strips still close
    assert_eq!(pixel_color(c, 5, 0, false), Color { r: 0, g: 0, b: 0 });
}

#[test]
fn inner_pixel_colors_by_flags() {
    let mid = CELL_SIZE / 2;
    let mut border = Cell::new();
    border.border = true;
    border.visited = true;
    assert_eq!(pixel_color(border, mid, mid, true), Color { r: 169, g: 169, b: 169 });

    let mut sol = floor_cell();
    sol.solution = true;
    assert_eq!(pixel_color(sol, mid, mid, true), Color { r: 255, g: 255, b: 145 });
    // with the solution hidden the cell shows plain floor
    assert_eq!(pixel_color(sol, mid, mid, false), Color { r: 255, g: 255, b: 255 });

    assert_eq!(pixel_color(floor_cell(), mid, mid, true), Color { r: 255, g: 255, b: 255 });

    let unreached = Cell::new();
    assert_eq!(pixel_color(unreached, mid, mid, true), Color { r: 0, g: 0, b: 255 });
}

#[test]
fn generated_maze_renders_border_and_floor() {
    let m = Maze::new(3);
    let cells = m.get_maze();
    let mid = CELL_SIZE / 2;
    // a sealed corner renders grey inside its walls
    assert_eq!(pixel_color(cells[0][0], mid, mid, true), Color { r: 169, g: 169, b: 169 });
    // a carved interior cell renders floor or solution color
    let c = pixel_color(cells[2][2], mid, mid, false);
    assert_eq!(c, Color { r: 255, g: 255, b: 255 });
}
