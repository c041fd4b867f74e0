use vstd::prelude::*;
use vstd::arithmetic::div_mod::{lemma_div_multiples_vanish, lemma_mod_multiples_basic};
use crate::accumulator::{channel_value, PixelAccumulator};
use crate::math::{
    boundary,
    end_index,
    index_seq,
    lemma_index_bounds,
    Linspace,
    lemma_sum_take_le,
    lemma_sum_take_step,
    sum_of,
    valid_range,
    weight_seq,
    weighted_indices,
    weights_match_indices,
    weights_positive,
    weights_sum_to_span,
};

verus! {

/// A raster of RGBA pixels, stored row by row.
pub struct Image {
    pub width: u32,
    pub height: u32,
    pub pixels: Vec<[u8; 4]>,
}

impl Image {
    pub open spec fn wf(&self) -> bool {
        self.pixels@.len() == self.width * self.height
    }

    /// The pixel in column `col` of row `row`.
    pub open spec fn pixel(&self, col: int, row: int) -> [u8; 4] {
        self.pixels@[row * self.width + col]
    }

    /// An image of the given size from its pixels in row-major order; `None`
    /// when their number is not `width * height`.
    pub fn new(width: u32, height: u32, pixels: Vec<[u8; 4]>) -> (r: Option<Image>)
        ensures
            r.is_some() == (pixels@.len() == width * height),
            r.is_some() ==> r.unwrap().wf() && r.unwrap().width == width && r.unwrap().height
                == height && r.unwrap().pixels@ == pixels@,
    {
        proof {
            assert(width as int * height as int <= u32::MAX as int * u32::MAX as int)
                by (nonlinear_arith)
                requires
                    width <= u32::MAX,
                    height <= u32::MAX,
            ;
        }
        if pixels.len() as u128 == width as u128 * height as u128 {
            Some(Image { width, height, pixels })
        } else {
            None
        }
    }

    pub fn dimensions(&self) -> (r: (u32, u32))
        ensures
            r == (self.width, self.height),
    {
        (self.width, self.height)
    }

    pub fn pixel_at(&self, col: u32, row: u32) -> (p: [u8; 4])
        requires
            self.wf(),
            col < self.width,
            row < self.height,
        ensures
            p == self.pixel(col as int, row as int),
    {
        let r: usize = row as usize;
        let w: usize = self.width as usize;
        let c: usize = col as usize;
        let n: usize = self.pixels.len();
        proof {
            assert(r * w + c < n) by (nonlinear_arith)
                requires
                    c < w,
                    r < self.height,
                    n == w * self.height,
            ;
            assert(r * w <= r * w + c);
        }
        self.pixels[r * w + c]
    }
}

/// The range `[lo, hi)` of one axis, in units of `1 / scale` pixel.
#[derive(Clone, Copy)]
pub struct Span {
    pub lo: u64,
    pub hi: u64,
    pub scale: u64,
}

impl Span {
    pub open spec fn valid(&self) -> bool {
        valid_range(self.lo as nat, self.hi as nat, self.scale as nat)
    }

    pub open spec fn indices(&self) -> Seq<int> {
        index_seq(self.lo as nat, self.hi as nat, self.scale as nat)
    }

    pub open spec fn weights(&self) -> Seq<int> {
        weight_seq(self.lo as nat, self.hi as nat, self.scale as nat)
    }

    /// The length of the range, which its weights sum to.
    pub open spec fn length(&self) -> int {
        self.hi - self.lo
    }

    /// The span lies inside `[0, extent)` pixels.
    pub open spec fn within(&self, extent: nat) -> bool {
        end_index(self.hi as nat, self.scale as nat) <= extent
    }
}

/// Channel `ch` of the pixels of row `row` at the columns `ci`, each times
/// its weight in `cw`, summed.
pub open spec fn row_total(img: Image, row: int, ci: Seq<int>, cw: Seq<int>, ch: int) -> int
    decreases ci.len(),
{
    if ci.len() == 0 {
        0
    } else {
        row_total(img, row, ci.drop_last(), cw.drop_last(), ch) + cw.last() * img.pixel(
            ci.last(),
            row,
        )[ch] as int
    }
}

/// The row totals of the rows `ri`, each times its weight in `rw`, summed:
/// every pixel counts with the product of its row and column weights.
pub open spec fn block_total(
    img: Image,
    ri: Seq<int>,
    rw: Seq<int>,
    ci: Seq<int>,
    cw: Seq<int>,
    ch: int,
) -> int
    decreases ri.len(),
{
    if ri.len() == 0 {
        0
    } else {
        block_total(img, ri.drop_last(), rw.drop_last(), ci, cw, ch) + rw.last() * row_total(
            img,
            ri.last(),
            ci,
            cw,
            ch,
        )
    }
}

/// Channel `ch` of the mean colour of the footprint `rows` x `cols`: the
/// weighted total divided by the footprint's area, rounded.
pub open spec fn mean_channel(img: Image, rows: Span, cols: Span, ch: int) -> nat {
    channel_value(
        block_total(img, rows.indices(), rows.weights(), cols.indices(), cols.weights(), ch) as nat,
        (rows.length() * cols.length()) as nat,
    )
}

pub open spec fn mean_color(img: Image, rows: Span, cols: Span) -> (u8, u8, u8) {
    (
        mean_channel(img, rows, cols, 0) as u8,
        mean_channel(img, rows, cols, 1) as u8,
        mean_channel(img, rows, cols, 2) as u8,
    )
}

proof fn lemma_row_total_step(img: Image, row: int, ci: Seq<int>, cw: Seq<int>, ch: int, k: int)
    requires
        0 <= k < ci.len(),
        ci.len() == cw.len(),
    ensures
        row_total(img, row, ci.take(k + 1), cw.take(k + 1), ch) == row_total(
            img,
            row,
            ci.take(k),
            cw.take(k),
            ch,
        ) + cw[k] * img.pixel(ci[k], row)[ch] as int,
{
    assert(ci.take(k + 1).drop_last() =~= ci.take(k));
    assert(cw.take(k + 1).drop_last() =~= cw.take(k));
}

proof fn lemma_block_total_step(
    img: Image,
    ri: Seq<int>,
    rw: Seq<int>,
    ci: Seq<int>,
    cw: Seq<int>,
    ch: int,
    j: int,
)
    requires
        0 <= j < ri.len(),
        ri.len() == rw.len(),
    ensures
        block_total(img, ri.take(j + 1), rw.take(j + 1), ci, cw, ch) == block_total(
            img,
            ri.take(j),
            rw.take(j),
            ci,
            cw,
            ch,
        ) + rw[j] * row_total(img, ri[j], ci, cw, ch),
{
    assert(ri.take(j + 1).drop_last() =~= ri.take(j));
    assert(rw.take(j + 1).drop_last() =~= rw.take(j));
}

/// The weighted sums of one row of the footprint.
fn row_sums(
    image: &Image,
    row: usize,
    cws: &Vec<(usize, u64)>,
    cols: Span,
) -> (acc: PixelAccumulator)
    requires
        image.wf(),
        cols.valid(),
        cols.within(image.width as nat),
        row < image.height,
        cols.length() <= u64::MAX,
        cws@.len() == cols.indices().len(),
        forall|k: int|
            0 <= k < cws@.len() ==> {
                &&& cws@[k].0 as int == #[trigger] cols.indices()[k]
                &&& cws@[k].1 as int == cols.weights()[k]
            },
    ensures
        acc.wf(),
        acc.weight == cols.length(),
        acc.red == row_total(*image, row as int, cols.indices(), cols.weights(), 0),
        acc.green == row_total(*image, row as int, cols.indices(), cols.weights(), 1),
        acc.blue == row_total(*image, row as int, cols.indices(), cols.weights(), 2),
{
    let ghost ci = cols.indices();
    let ghost cw = cols.weights();
    proof {
        weights_match_indices(cols.lo as nat, cols.hi as nat, cols.scale as nat);
        weights_positive(cols.lo as nat, cols.hi as nat, cols.scale as nat);
        weights_sum_to_span(cols.lo as nat, cols.hi as nat, cols.scale as nat);
    }
    let mut acc = PixelAccumulator::new(cols.hi - cols.lo);
    let mut k: usize = 0;
    while k < cws.len()
        invariant
            image.wf(),
            cols.valid(),
            cols.within(image.width as nat),
            row < image.height,
            cols.length() <= u64::MAX,
            ci == cols.indices(),
            cw == cols.weights(),
            ci.len() == cw.len(),
            sum_of(cw) == cols.length(),
            forall|j: int| 0 <= j < cw.len() ==> 0 < #[trigger] cw[j],
            cws@.len() == ci.len(),
            forall|j: int|
                0 <= j < cws@.len() ==> {
                    &&& cws@[j].0 as int == #[trigger] ci[j]
                    &&& cws@[j].1 as int == cw[j]
                },
            k <= cws@.len(),
            acc.wf(),
            acc.weight == sum_of(cw.take(k as int)),
            acc.red == row_total(*image, row as int, ci.take(k as int), cw.take(k as int), 0),
            acc.green == row_total(*image, row as int, ci.take(k as int), cw.take(k as int), 1),
            acc.blue == row_total(*image, row as int, ci.take(k as int), cw.take(k as int), 2),
        decreases cws@.len() - k,
    {
        let (col, weight) = cws[k];
        proof {
            lemma_sum_take_step(cw, k as int);
            lemma_sum_take_le(cw, k + 1);
            lemma_row_total_step(*image, row as int, ci, cw, 0, k as int);
            lemma_row_total_step(*image, row as int, ci, cw, 1, k as int);
            lemma_row_total_step(*image, row as int, ci, cw, 2, k as int);
            weights_match_indices(cols.lo as nat, cols.hi as nat, cols.scale as nat);
            assert(ci[k as int] < end_index(cols.hi as nat, cols.scale as nat));
        }
        let pixel = image.pixel_at(col as u32, row as u32);
        acc.add_pixel(pixel, weight);
        k = k + 1;
    }
    proof {
        assert(ci.take(k as int) =~= ci);
        assert(cw.take(k as int) =~= cw);
    }
    acc
}

/// The mean colour of the footprint `rows` x `cols` of `image`: each pixel
/// counts with the product of the weights of its row in `rows` and of its
/// column in `cols`, the total is divided by the footprint's area and each
/// channel is rounded to the nearest integer.
pub fn subimage_mean(image: &Image, rows: Span, cols: Span) -> (r: (u8, u8, u8))
    requires
        image.wf(),
        rows.valid(),
        cols.valid(),
        rows.within(image.height as nat),
        cols.within(image.width as nat),
        rows.length() * cols.length() <= u64::MAX,
    ensures
        r == mean_color(*image, rows, cols),
{
    let ghost ri = rows.indices();
    let ghost rw = rows.weights();
    proof {
        weights_match_indices(rows.lo as nat, rows.hi as nat, rows.scale as nat);
        weights_positive(rows.lo as nat, rows.hi as nat, rows.scale as nat);
        weights_sum_to_span(rows.lo as nat, rows.hi as nat, rows.scale as nat);
        assert(rows.length() <= u64::MAX && cols.length() <= u64::MAX) by (nonlinear_arith)
            requires
                rows.length() * cols.length() <= u64::MAX,
                rows.length() >= 1,
                cols.length() >= 1,
        ;
    }
    let rws = weighted_indices(rows.lo, rows.hi, rows.scale);
    let cws = weighted_indices(cols.lo, cols.hi, cols.scale);
    let row_length: u64 = rows.hi - rows.lo;
    let col_length: u64 = cols.hi - cols.lo;
    let mut acc = PixelAccumulator::new(row_length * col_length);
    let mut j: usize = 0;
    while j < rws.len()
        invariant
            image.wf(),
            rows.valid(),
            cols.valid(),
            rows.within(image.height as nat),
            cols.within(image.width as nat),
            rows.length() * cols.length() <= u64::MAX,
            cols.length() <= u64::MAX,
            col_length == cols.length(),
            ri == rows.indices(),
            rw == rows.weights(),
            ri.len() == rw.len(),
            sum_of(rw) == rows.length(),
            forall|i: int| 0 <= i < rw.len() ==> 0 < #[trigger] rw[i],
            rws@.len() == ri.len(),
            forall|i: int|
                0 <= i < rws@.len() ==> {
                    &&& rws@[i].0 as int == #[trigger] ri[i]
                    &&& rws@[i].1 as int == rw[i]
                },
            cws@.len() == cols.indices().len(),
            forall|k: int|
                0 <= k < cws@.len() ==> {
                    &&& cws@[k].0 as int == #[trigger] cols.indices()[k]
                    &&& cws@[k].1 as int == cols.weights()[k]
                },
            j <= rws@.len(),
            acc.wf(),
            acc.scale == rows.length() * cols.length(),
            acc.weight == sum_of(rw.take(j as int)) * cols.length(),
            acc.red == block_total(
                *image,
                ri.take(j as int),
                rw.take(j as int),
                cols.indices(),
                cols.weights(),
                0,
            ),
            acc.green == block_total(
                *image,
                ri.take(j as int),
                rw.take(j as int),
                cols.indices(),
                cols.weights(),
                1,
            ),
            acc.blue == block_total(
                *image,
                ri.take(j as int),
                rw.take(j as int),
                cols.indices(),
                cols.weights(),
                2,
            ),
        decreases rws@.len() - j,
    {
        let (row, weight) = rws[j];
        proof {
            weights_match_indices(rows.lo as nat, rows.hi as nat, rows.scale as nat);
            assert(ri[j as int] < end_index(rows.hi as nat, rows.scale as nat));
            lemma_sum_take_step(rw, j as int);
            lemma_sum_take_le(rw, j + 1);
            lemma_block_total_step(*image, ri, rw, cols.indices(), cols.weights(), 0, j as int);
            lemma_block_total_step(*image, ri, rw, cols.indices(), cols.weights(), 1, j as int);
            lemma_block_total_step(*image, ri, rw, cols.indices(), cols.weights(), 2, j as int);
        }
        let line = row_sums(image, row, &cws, cols);
        proof {
            let s = sum_of(rw.take(j as int));
            let c = cols.length();
            assert(s * c + weight * c == (s + weight) * c) by (nonlinear_arith);
            assert((s + weight) * c <= rows.length() * c) by (nonlinear_arith)
                requires
                    s + weight <= rows.length(),
                    c >= 0,
            ;
        }
        acc.add_row(&line, weight);
        j = j + 1;
    }
    proof {
        assert(ri.take(j as int) =~= ri);
        assert(rw.take(j as int) =~= rw);
        assert(acc.weight > 0) by (nonlinear_arith)
            requires
                acc.weight == rows.length() * cols.length(),
                rows.length() >= 1,
                cols.length() >= 1,
        ;
    }
    acc.to_rgb()
}

/// Cell `k` of the split of `[0, extent)` pixels into `count` equal cells.
pub open spec fn cell_span(extent: nat, count: nat, k: nat) -> Span {
    Span { lo: (k * extent) as u64, hi: ((k + 1) * extent) as u64, scale: count as u64 }
}

/// Cell `row`, `col` of a `cols` x `rows` grid laid over the whole image.
pub open spec fn cell_color(img: Image, cols: nat, rows: nat, row: nat, col: nat) -> (u8, u8, u8) {
    mean_color(
        img,
        cell_span(img.height as nat, rows, row),
        cell_span(img.width as nat, cols, col),
    )
}

proof fn lemma_cell_span(extent: nat, count: nat, k: nat)
    requires
        1 <= extent <= u32::MAX,
        1 <= count <= u32::MAX,
        k < count,
    ensures
        ({
            let s = cell_span(extent, count, k);
            &&& s.lo == k * extent
            &&& s.hi == (k + 1) * extent
            &&& s.scale == count
            &&& s.valid()
            &&& s.within(extent)
            &&& s.length() == extent
        }),
{
    assert((k + 1) * extent <= count * extent) by (nonlinear_arith)
        requires
            k < count,
    ;
    assert(count * extent <= u32::MAX * u32::MAX) by (nonlinear_arith)
        requires
            count <= u32::MAX,
            extent <= u32::MAX,
    ;
    assert((k + 1) * extent == k * extent + extent) by (nonlinear_arith);
    let s = cell_span(extent, count, k);
    lemma_index_bounds(s.lo as nat, s.hi as nat, count);
    let e = end_index(s.hi as nat, count);
    assert(e <= extent) by (nonlinear_arith)
        requires
            (e - 1) * count < (k + 1) * extent,
            (k + 1) * extent <= count * extent,
            count >= 1,
    {
        if e > extent {
            assert((e - 1) * count >= extent * count);
        }
    }
}

/// The spans of the `count` equal cells of `[0, extent)` pixels.
pub fn cell_spans(extent: u32, count: u32) -> (r: Vec<Span>)
    requires
        extent >= 1,
    ensures
        r@.len() == count,
        forall|k: int| 0 <= k < count ==> #[trigger] r@[k] == cell_span(extent as nat, count as nat, k as nat),
{
    proof {
        assert(extent * count <= u32::MAX * u32::MAX) by (nonlinear_arith)
            requires
                count <= u32::MAX,
                extent <= u32::MAX,
        ;
    }
    let ranges = Linspace::new(0, extent as u64, count as usize).ranges();
    let mut r: Vec<Span> = Vec::new();
    let mut k: usize = 0;
    while k < ranges.len()
        invariant
            ranges@.len() == count,
            forall|j: int|
                0 <= j < count ==> (#[trigger] ranges@[j].0 as int, ranges@[j].1 as int) == (
                    boundary(0, extent as nat, count as nat, j as nat),
                    boundary(0, extent as nat, count as nat, (j + 1) as nat),
                ),
            k <= count,
            r@.len() == k,
            forall|j: int|
                0 <= j < k ==> #[trigger] r@[j] == cell_span(extent as nat, count as nat, j as nat),
        decreases count - k,
    {
        let (lo, hi) = ranges[k];
        proof {
            assert(ranges@[k as int].0 as int == boundary(0, extent as nat, count as nat, k as nat));
            assert(boundary(0, extent as nat, count as nat, k as nat) == k * extent) by (nonlinear_arith);
            assert(boundary(0, extent as nat, count as nat, (k + 1) as nat) == (k + 1) * extent)
                by (nonlinear_arith);
        }
        r.push(Span { lo, hi, scale: count as u64 });
        k = k + 1;
    }
    r
}

/// The colours of row `row` of a `cols` x `rows` grid of cells laid over the
/// whole image, each the mean of the image under its cell.
pub fn sample_row(image: &Image, cols: u32, rows: u32, row: u32) -> (r: Vec<(u8, u8, u8)>)
    requires
        image.wf(),
        image.width >= 1,
        image.height >= 1,
        row < rows,
    ensures
        r@.len() == cols,
        forall|c: int|
            0 <= c < cols ==> #[trigger] r@[c] == cell_color(
                *image,
                cols as nat,
                rows as nat,
                row as nat,
                c as nat,
            ),
{
    let col_spans = cell_spans(image.width, cols);
    let row_spans = cell_spans(image.height, rows);
    let row_span = row_spans[row as usize];
    proof {
        lemma_cell_span(image.height as nat, rows as nat, row as nat);
        assert(image.height * image.width <= u32::MAX * u32::MAX) by (nonlinear_arith)
            requires
                image.height <= u32::MAX,
                image.width <= u32::MAX,
        ;
    }
    let mut r: Vec<(u8, u8, u8)> = Vec::new();
    let mut c: usize = 0;
    while c < col_spans.len()
        invariant
            image.wf(),
            image.width >= 1,
            image.height * image.width <= u64::MAX,
            row_span == cell_span(image.height as nat, rows as nat, row as nat),
            row_span.valid(),
            row_span.within(image.height as nat),
            row_span.length() == image.height,
            col_spans@.len() == cols,
            forall|k: int|
                0 <= k < cols ==> #[trigger] col_spans@[k] == cell_span(
                    image.width as nat,
                    cols as nat,
                    k as nat,
                ),
            c <= cols,
            r@.len() == c,
            forall|k: int|
                0 <= k < c ==> #[trigger] r@[k] == cell_color(
                    *image,
                    cols as nat,
                    rows as nat,
                    row as nat,
                    k as nat,
                ),
        decreases cols - c,
    {
        proof {
            lemma_cell_span(image.width as nat, cols as nat, c as nat);
        }
        let color = subimage_mean(image, row_span, col_spans[c]);
        r.push(color);
        c = c + 1;
    }
    r
}

/// The colours of a `cols` x `rows` grid of cells laid over the whole image,
/// row by row.
pub fn sample_grid(image: &Image, cols: u32, rows: u32) -> (r: Vec<Vec<(u8, u8, u8)>>)
    requires
        image.wf(),
        image.width >= 1,
        image.height >= 1,
    ensures
        r@.len() == rows,
        forall|i: int|
            0 <= i < rows ==> {
                &&& (#[trigger] r@[i])@.len() == cols
                &&& forall|c: int|
                    0 <= c < cols ==> #[trigger] r@[i]@[c] == cell_color(
                        *image,
                        cols as nat,
                        rows as nat,
                        i as nat,
                        c as nat,
                    )
            },
{
    let mut r: Vec<Vec<(u8, u8, u8)>> = Vec::new();
    let mut i: u32 = 0;
    while i < rows
        invariant
            image.wf(),
            image.width >= 1,
            image.height >= 1,
            i <= rows,
            r@.len() == i,
            forall|j: int|
                0 <= j < i ==> {
                    &&& (#[trigger] r@[j])@.len() == cols
                    &&& forall|c: int|
                        0 <= c < cols ==> #[trigger] r@[j]@[c] == cell_color(
                            *image,
                            cols as nat,
                            rows as nat,
                            j as nat,
                            c as nat,
                        )
                },
        decreases rows - i,
    {
        let line = sample_row(image, cols, rows, i);
        r.push(line);
        i = i + 1;
    }
    r
}

/// Every pixel of the image is `p`.
pub open spec fn is_uniform(img: Image, p: [u8; 4]) -> bool {
    forall|c: int, r: int|
        0 <= c < img.width && 0 <= r < img.height ==> #[trigger] img.pixel(c, r) == p
}

proof fn lemma_row_total_uniform(
    img: Image,
    p: [u8; 4],
    row: int,
    ci: Seq<int>,
    cw: Seq<int>,
    ch: int,
)
    requires
        is_uniform(img, p),
        0 <= row < img.height,
        ci.len() == cw.len(),
        forall|k: int| 0 <= k < ci.len() ==> 0 <= #[trigger] ci[k] < img.width,
    ensures
        row_total(img, row, ci, cw, ch) == p[ch] as int * sum_of(cw),
    decreases ci.len(),
{
    if ci.len() > 0 {
        let (a, b) = (ci.drop_last(), cw.drop_last());
        assert forall|k: int| 0 <= k < a.len() implies 0 <= #[trigger] a[k] < img.width by {
            assert(a[k] == ci[k]);
        }
        lemma_row_total_uniform(img, p, row, a, b, ch);
        assert(img.pixel(ci.last(), row) == p);
        assert(p[ch] as int * sum_of(b) + cw.last() * p[ch] as int == p[ch] as int * (sum_of(b)
            + cw.last())) by (nonlinear_arith);
    }
}

proof fn lemma_block_total_uniform(
    img: Image,
    p: [u8; 4],
    ri: Seq<int>,
    rw: Seq<int>,
    ci: Seq<int>,
    cw: Seq<int>,
    ch: int,
)
    requires
        is_uniform(img, p),
        ri.len() == rw.len(),
        ci.len() == cw.len(),
        forall|k: int| 0 <= k < ri.len() ==> 0 <= #[trigger] ri[k] < img.height,
        forall|k: int| 0 <= k < ci.len() ==> 0 <= #[trigger] ci[k] < img.width,
    ensures
        block_total(img, ri, rw, ci, cw, ch) == p[ch] as int * sum_of(cw) * sum_of(rw),
    decreases ri.len(),
{
    if ri.len() > 0 {
        let (a, b) = (ri.drop_last(), rw.drop_last());
        assert forall|k: int| 0 <= k < a.len() implies 0 <= #[trigger] a[k] < img.height by {
            assert(a[k] == ri[k]);
        }
        lemma_block_total_uniform(img, p, a, b, ci, cw, ch);
        lemma_row_total_uniform(img, p, ri.last(), ci, cw, ch);
        let q = p[ch] as int * sum_of(cw);
        assert(q * sum_of(b) + rw.last() * q == q * (sum_of(b) + rw.last())) by (nonlinear_arith);
    }
}

proof fn lemma_mean_of_uniform(img: Image, p: [u8; 4], rows: Span, cols: Span)
    requires
        is_uniform(img, p),
        rows.valid(),
        cols.valid(),
        rows.within(img.height as nat),
        cols.within(img.width as nat),
    ensures
        mean_color(img, rows, cols) == (p[0], p[1], p[2]),
{
    weights_match_indices(rows.lo as nat, rows.hi as nat, rows.scale as nat);
    weights_match_indices(cols.lo as nat, cols.hi as nat, cols.scale as nat);
    weights_sum_to_span(rows.lo as nat, rows.hi as nat, rows.scale as nat);
    weights_sum_to_span(cols.lo as nat, cols.hi as nat, cols.scale as nat);
    let t = rows.length() * cols.length();
    assert(t > 0) by (nonlinear_arith)
        requires
            rows.length() > 0,
            cols.length() > 0,
            t == rows.length() * cols.length(),
    ;
    assert forall|ch: int| 0 <= ch < 3 implies mean_channel(img, rows, cols, ch) == p[ch] by {
        lemma_block_total_uniform(
            img,
            p,
            rows.indices(),
            rows.weights(),
            cols.indices(),
            cols.weights(),
            ch,
        );
        let v = p[ch] as int;
        assert(v * cols.length() * rows.length() == v * t) by (nonlinear_arith)
            requires
                t == rows.length() * cols.length(),
        ;
        assert(v * t == t * v) by (nonlinear_arith);
        assert(v * t >= 0) by (nonlinear_arith)
            requires
                v >= 0,
                t > 0,
        ;
        lemma_mod_multiples_basic(v, t);
        lemma_div_multiples_vanish(v, t);
    }
}

/// Sampling an image of a single colour gives that colour in every cell of
/// every grid: the mean of a constant field is the constant.
pub proof fn uniform_image_samples_to_its_color(
    img: Image,
    p: [u8; 4],
    cols: nat,
    rows: nat,
    row: nat,
    col: nat,
)
    requires
        img.wf(),
        1 <= img.width,
        1 <= img.height,
        is_uniform(img, p),
        cols <= u32::MAX,
        rows <= u32::MAX,
        row < rows,
        col < cols,
    ensures
        cell_color(img, cols, rows, row, col) == (p[0], p[1], p[2]),
{
    lemma_cell_span(img.height as nat, rows, row);
    lemma_cell_span(img.width as nat, cols, col);
    lemma_mean_of_uniform(
        img,
        p,
        cell_span(img.height as nat, rows, row),
        cell_span(img.width as nat, cols, col),
    );
}

/// Channel `ch` of the plain mean of the four pixels of a 2 x 2 image,
/// rounded to the nearest integer.
pub open spec fn corner_mean(img: Image, ch: int) -> nat {
    channel_value(
        (img.pixel(0, 0)[ch] + img.pixel(1, 0)[ch] + img.pixel(0, 1)[ch] + img.pixel(1, 1)[ch]) as nat,
        4,
    )
}

/// Sampling a 2 x 2 image into a single cell gives the unweighted mean of
/// its four pixels.
pub proof fn two_by_two_samples_to_mean(img: Image)
    requires
        img.wf(),
        img.width == 2,
        img.height == 2,
    ensures
        cell_color(img, 1, 1, 0, 0) == (
            corner_mean(img, 0) as u8,
            corner_mean(img, 1) as u8,
            corner_mean(img, 2) as u8,
        ),
{
    let s = cell_span(2, 1, 0);
    assert(s == Span { lo: 0, hi: 2, scale: 1 });
    assert(end_index(2, 1) == 2);
    assert(s.indices() =~= seq![0int, 1]);
    assert(s.weights() =~= seq![1int, 1]);
    assert(seq![0int, 1].drop_last() =~= seq![0int]);
    assert(seq![1int, 1].drop_last() =~= seq![1int]);
    assert(seq![0int].drop_last() =~= Seq::<int>::empty());
    assert(seq![1int].drop_last() =~= Seq::<int>::empty());
    assert forall|ch: int| 0 <= ch < 3 implies mean_channel(img, s, s, ch) == corner_mean(img, ch) by {
        let (i2, w2) = (seq![0int, 1], seq![1int, 1]);
        let (i1, w1) = (seq![0int], seq![1int]);
        let e = Seq::<int>::empty();
        assert(i2.last() == 1 && w2.last() == 1 && i1.last() == 0 && w1.last() == 1);
        assert(i2.drop_last() == i1 && w2.drop_last() == w1);
        assert(i1.drop_last() == e && w1.drop_last() == e);
        assert(row_total(img, 0, e, e, ch) == 0);
        assert(row_total(img, 1, e, e, ch) == 0);
        assert(row_total(img, 0, i1, w1, ch) == img.pixel(0, 0)[ch]);
        assert(row_total(img, 1, i1, w1, ch) == img.pixel(0, 1)[ch]);
        assert(row_total(img, 0, i2, w2, ch) == img.pixel(0, 0)[ch] + img.pixel(1, 0)[ch]);
        assert(row_total(img, 1, i2, w2, ch) == img.pixel(0, 1)[ch]
            + img.pixel(1, 1)[ch]);
        assert(block_total(img, e, e, i2, w2, ch) == 0);
        assert(block_total(img, i1, w1, i2, w2, ch) == row_total(img, 0, i2, w2, ch));
        assert(block_total(img, i2, w2, i2, w2, ch) == row_total(img, 0, i2, w2, ch) + row_total(
            img,
            1,
            i2,
            w2,
            ch,
        ));
        assert(s.length() * s.length() == 4);
    }
}

} // verus!
