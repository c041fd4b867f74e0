use imshow::layout::{display_dimension, grid_dimensions};
use imshow::Dimensions;

#[test]
fn display_dimension_fits_height_or_width() {
    assert_eq!(display_dimension(Dimensions { width: 50, height: 20 }, true), 40);
    assert_eq!(display_dimension(Dimensions { width: 30, height: 20 }, true), 30);
    assert_eq!(display_dimension(Dimensions { width: 10, height: 20 }, false), 10);
}

#[test]
fn grid_has_half_as_many_rows_as_columns() {
    assert_eq!(
        grid_dimensions(Dimensions { width: 50, height: 20 }, true),
        Dimensions { width: 40, height: 20 }
    );
    assert_eq!(
        grid_dimensions(Dimensions { width: 81, height: 20 }, false),
        Dimensions { width: 81, height: 40 }
    );
    assert_eq!(
        grid_dimensions(Dimensions { width: 1, height: 5 }, false),
        Dimensions { width: 1, height: 1 }
    );
    assert_eq!(
        grid_dimensions(Dimensions { width: 0, height: 5 }, false),
        Dimensions { width: 0, height: 0 }
    );
}
