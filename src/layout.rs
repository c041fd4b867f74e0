use vstd::prelude::*;
use crate::Dimensions;

verus! {

/// The number of output columns: the terminal's width, or, when fitting to
/// its height, twice its height (cells are about twice as tall as wide) but
/// no more than its width.
pub open spec fn display_dimension_of(terminal: Dimensions, vertical: bool) -> nat {
    if vertical && 2 * terminal.height < terminal.width {
        2 * terminal.height as nat
    } else {
        terminal.width as nat
    }
}

pub fn display_dimension(terminal: Dimensions, vertical: bool) -> (r: u32)
    ensures
        r == display_dimension_of(terminal, vertical),
{
    if vertical && 2 * (terminal.height as u64) < terminal.width as u64 {
        2 * terminal.height
    } else {
        terminal.width
    }
}

/// The output grid: `display_dimension` columns and half as many rows, but
/// at least one row when there is a column.
pub open spec fn grid_dimensions_of(terminal: Dimensions, vertical: bool) -> Dimensions {
    let columns = display_dimension_of(terminal, vertical);
    let rows = if columns == 0 {
        0
    } else if columns < 2 {
        1
    } else {
        columns / 2
    };
    Dimensions { width: columns as u32, height: rows as u32 }
}

pub fn grid_dimensions(terminal: Dimensions, vertical: bool) -> (r: Dimensions)
    ensures
        r == grid_dimensions_of(terminal, vertical),
        r.width <= terminal.width,
        vertical && terminal.height >= 1 ==> r.height <= terminal.height,
{
    let columns = display_dimension(terminal, vertical);
    let rows = if columns == 0 {
        0
    } else if columns < 2 {
        1
    } else {
        columns / 2
    };
    Dimensions { width: columns, height: rows }
}

} // verus!
