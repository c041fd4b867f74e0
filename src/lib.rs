use vstd::prelude::*;
use crate::layout::{grid_dimensions, grid_dimensions_of};
use crate::render::{lines_text, painted_block, painted_grid, render};
use crate::sampler::{cell_color, sample_grid, Image};

pub mod accumulator;
pub mod layout;
pub mod math;
pub mod render;
pub mod sampler;
pub mod utils;

verus! {

/// A width and a height: of an image in pixels, or of a terminal in cells.
#[derive(Debug, Clone, Copy, PartialEq, Eq, Structural)]
pub struct Dimensions {
    pub width: u32,
    pub height: u32,
}

/// The painted cells of the output: the grid that `grid_dimensions` gives
/// laid over the whole image, each cell painted in the mean colour under it.
pub open spec fn shown_cells(
    image: Image,
    terminal: Dimensions,
    vertical: bool,
) -> Seq<Seq<Seq<char>>> {
    let grid = grid_dimensions_of(terminal, vertical);
    Seq::new(
        grid.height as nat,
        |row: int|
            Seq::new(
                grid.width as nat,
                |col: int|
                    {
                        let c = cell_color(
                            image,
                            grid.width as nat,
                            grid.height as nat,
                            row as nat,
                            col as nat,
                        );
                        painted_block(c.0, c.1, c.2)
                    },
            ),
    )
}

/// The whole output for `image` in a terminal of the given size; nothing
/// for an image without pixels.
pub open spec fn shown(image: Image, terminal: Dimensions, vertical: bool) -> Seq<char> {
    if image.width == 0 || image.height == 0 {
        Seq::empty()
    } else {
        lines_text(shown_cells(image, terminal, vertical))
    }
}

/// Renders the image as coloured text sized to the terminal, filling its
/// height when `vertical` and its width otherwise.
pub fn show(image: Image, terminal_dimensions: Dimensions, vertical: bool) -> (r: String)
    requires
        image.wf(),
    ensures
        r@ == shown(image, terminal_dimensions, vertical),
{
    if image.width == 0 || image.height == 0 {
        return String::new();
    }
    let grid_size = grid_dimensions(terminal_dimensions, vertical);
    let grid = sample_grid(&image, grid_size.width, grid_size.height);
    let text = render(&grid);
    proof {
        assert(painted_grid(grid@) =~~= shown_cells(image, terminal_dimensions, vertical));
    }
    text
}

} // verus!
