use vstd::prelude::*;

use crate::maze::Cell;

verus! {

/// Side length in pixels of one rendered cell block.
pub const CELL_SIZE: u32 = 20;

/// Thickness in pixels of a drawn wall line.
pub const WALL_THICKNESS: u32 = 1;

/// One RGB pixel color.
#[derive(Clone, Copy, Debug, PartialEq, Eq, Structural)]
pub struct Color {
    pub r: u8,
    pub g: u8,
    pub b: u8,
}

/// Black, drawn wherever a wall line crosses the pixel.
pub open spec fn wall_color() -> Color {
    Color { r: 0, g: 0, b: 0 }
}

/// White, the open floor of a carved cell.
pub open spec fn floor_color() -> Color {
    Color { r: 255, g: 255, b: 255 }
}

/// Blue, a cell generation never reached.
pub open spec fn unvisited_color() -> Color {
    Color { r: 0, g: 0, b: 255 }
}

/// Light yellow, the entrance-to-exit path.
pub open spec fn solution_color() -> Color {
    Color { r: 255, g: 255, b: 145 }
}

/// Darker grey, the sealed border ring.
pub open spec fn border_color() -> Color {
    Color { r: 169, g: 169, b: 169 }
}

/// Whether the pixel at (in_cell_x, in_cell_y) of a cell's block lies on a
/// wall line: it falls in an edge strip whose passage flag is closed.
pub open spec fn is_wall_pixel(cell: Cell, in_cell_x: int, in_cell_y: int) -> bool {
    ||| (in_cell_x < WALL_THICKNESS as int && !cell.left)
    ||| (in_cell_y < WALL_THICKNESS as int && !cell.top)
    ||| (in_cell_x >= CELL_SIZE as int - WALL_THICKNESS as int && !cell.right)
    ||| (in_cell_y >= CELL_SIZE as int - WALL_THICKNESS as int && !cell.bottom)
}

/// The color of the pixel at (in_cell_x, in_cell_y) of a cell's block:
/// wall lines win, then the border ring, then the solution path when it is
/// shown, then carved floor, and blue for anything never reached.
pub open spec fn pixel_color_spec(
    cell: Cell,
    in_cell_x: int,
    in_cell_y: int,
    show_solution: bool,
) -> Color {
    if is_wall_pixel(cell, in_cell_x, in_cell_y) {
        wall_color()
    } else if cell.border {
        border_color()
    } else if cell.solution && show_solution {
        solution_color()
    } else if cell.visited {
        floor_color()
    } else {
        unvisited_color()
    }
}

/// Computes the color of one pixel of a cell's rendered block.
pub fn pixel_color(cell: Cell, in_cell_x: u32, in_cell_y: u32, show_solution: bool) -> (c: Color)
    ensures
        c == pixel_color_spec(cell, in_cell_x as int, in_cell_y as int, show_solution),
{
    if (in_cell_x < WALL_THICKNESS && !cell.left) || (in_cell_y < WALL_THICKNESS && !cell.top) || (
    in_cell_x >= CELL_SIZE - WALL_THICKNESS && !cell.right) || (in_cell_y >= CELL_SIZE
        - WALL_THICKNESS && !cell.bottom) {
        Color { r: 0, g: 0, b: 0 }
    } else if cell.border {
        Color { r: 169, g: 169, b: 169 }
    } else if cell.solution && show_solution {
        Color { r: 255, g: 255, b: 145 }
    } else if cell.visited {
        Color { r: 255, g: 255, b: 255 }
    } else {
        Color { r: 0, g: 0, b: 255 }
    }
}

} // verus!
