use imshow::render::{assemble, render};
use imshow::sampler::{cell_spans, sample_grid, sample_row, subimage_mean, Image, Span};
use imshow::{show, Dimensions};

fn image(width: u32, height: u32, pixels: Vec<[u8; 4]>) -> Image {
    Image::new(width, height, pixels).unwrap()
}

#[test]
fn image_rejects_wrong_pixel_count() {
    assert!(Image::new(2, 2, vec![[0, 0, 0, 255]; 3]).is_none());
    assert!(Image::new(2, 2, vec![[0, 0, 0, 255]; 4]).is_some());
    let img = image(3, 2, (0..6).map(|i| [i as u8, 0, 0, 0]).collect());
    assert_eq!(img.dimensions(), (3, 2));
    assert_eq!(img.pixel_at(2, 1), [5, 0, 0, 0]);
}

#[test]
fn uniform_image_keeps_its_color() {
    let img = image(4, 4, vec![[17, 99, 201, 255]; 16]);
    let grid = sample_grid(&img, 2, 1);
    assert_eq!(grid, vec![vec![(17, 99, 201), (17, 99, 201)]]);
}

#[test]
fn two_by_two_to_one_cell_is_the_plain_mean() {
    let img = image(
        2,
        2,
        vec![[10, 20, 30, 255], [40, 50, 60, 255], [70, 80, 90, 255], [100, 110, 121, 255]],
    );
    // (220 / 4, 260 / 4, 301 / 4) = (55, 65, 75.25)
    assert_eq!(sample_grid(&img, 1, 1), vec![vec![(55, 65, 75)]]);
}

#[test]
fn fractional_footprint_mean() {
    // one row of three pixels split into two cells of 1.5 pixels each
    let img = image(3, 1, vec![[0, 0, 0, 0], [90, 30, 3, 0], [200, 100, 50, 0]]);
    // left: (2 * 0 + 1 * 90) / 3 = 30; right: (1 * 90 + 2 * 200) / 3 = 163.33
    assert_eq!(sample_row(&img, 2, 1, 0), vec![(30, 10, 1), (163, 77, 34)]);
}

#[test]
fn subimage_mean_weights_rows_and_columns() {
    let img = image(2, 2, vec![[0, 0, 0, 0], [100, 0, 0, 0], [0, 0, 0, 0], [0, 0, 0, 0]]);
    // rows [0, 1), columns [0.5, 2): weights 1/3 and 2/3
    let rows = Span { lo: 0, hi: 2, scale: 2 };
    let cols = Span { lo: 1, hi: 4, scale: 2 };
    assert_eq!(subimage_mean(&img, rows, cols), (67, 0, 0));
}

#[test]
fn cell_spans_split_the_extent() {
    let spans = cell_spans(3, 2);
    assert_eq!(spans.len(), 2);
    assert_eq!((spans[0].lo, spans[0].hi, spans[0].scale), (0, 3, 2));
    assert_eq!((spans[1].lo, spans[1].hi, spans[1].scale), (3, 6, 2));
}

#[test]
fn render_paints_each_cell_and_ends_rows() {
    let text = render(&vec![vec![(1, 2, 3), (250, 0, 9)], vec![(0, 0, 0), (7, 7, 7)]]);
    let block = "\u{2588}";
    let expected = format!(
        "\x1b[38;2;1;2;3m{b}\x1b[0m\x1b[38;2;250;0;9m{b}\x1b[0m\n\x1b[38;2;0;0;0m{b}\x1b[0m\x1b[38;2;7;7;7m{b}\x1b[0m\n",
        b = block
    );
    assert_eq!(text, expected);
}

#[test]
fn assemble_joins_cells_and_rows() {
    let cells = vec![
        vec!["a".to_string(), "b".to_string()],
        vec![],
        vec!["c".to_string()],
    ];
    assert_eq!(assemble(&cells), "ab\n\nc\n");
    assert_eq!(assemble(&Vec::new()), "");
}

#[test]
fn show_samples_and_renders() {
    let img = image(4, 2, vec![[200, 100, 0, 255]; 8]);
    let text = show(img, Dimensions { width: 2, height: 5 }, false);
    let cell = "\x1b[38;2;200;100;0m\u{2588}\x1b[0m";
    assert_eq!(text, format!("{c}{c}\n", c = cell));
}

#[test]
fn show_of_empty_image_is_empty() {
    let img = image(0, 3, Vec::new());
    assert_eq!(show(img, Dimensions { width: 80, height: 24 }, true), "");
}
