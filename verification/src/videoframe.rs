use vstd::prelude::*;

use crate::bitlogics::get_rgb_for_bit;
use crate::injectionextraction::{bit_to_color, Color};
use crate::instructionlogics::{u64_bits_msb, Instruction};
use vstd::arithmetic::div_mod::{
    lemma_div_multiples_vanish, lemma_div_nonincreasing, lemma_div_pos_is_pos,
    lemma_fundamental_div_mod, lemma_fundamental_div_mod_converse, lemma_mod_multiples_basic,
    lemma_mod_pos_bound, lemma_multiply_divide_lt,
};
use vstd::arithmetic::mul::lemma_mul_inequality;

verus! {

/// A regular grid: the frame width and height are multiples of the cell size.
pub open spec fn grid_aligned(width: int, height: int, size: int) -> bool {
    &&& size >= 1
    &&& width >= 0
    &&& height >= 0
    &&& width % size == 0
    &&& height % size == 0
}

/// How many cells the whole grid holds.
pub open spec fn cell_count(width: int, height: int, size: int) -> int {
    (width / size) * (height / size)
}

/// Pixel x coordinate of the top-left corner of cell `ci`, the cells being
/// numbered in row-major order.
pub open spec fn cell_origin_x(width: int, size: int, ci: int) -> int {
    (ci % (width / size)) * size
}

/// Pixel y coordinate of the top-left corner of cell `ci`.
pub open spec fn cell_origin_y(width: int, size: int, ci: int) -> int {
    (ci / (width / size)) * size
}

/// The cell that pixel (px, py) belongs to.
pub open spec fn cell_index_of(width: int, size: int, px: int, py: int) -> int {
    (py / size) * (width / size) + px / size
}

/// The color of pixel (px, py) in a row-major pixel sequence.
pub open spec fn pixel_at(pixels: Seq<Color>, width: int, px: int, py: int) -> Color {
    pixels[py * width + px]
}

/// Whether pixel (px, py) lies inside the size-by-size block of cell `ci`.
pub open spec fn in_cell(width: int, size: int, ci: int, px: int, py: int) -> bool {
    &&& cell_origin_x(width, size, ci) <= px < cell_origin_x(width, size, ci) + size
    &&& cell_origin_y(width, size, ci) <= py < cell_origin_y(width, size, ci) + size
}

/// Whether every pixel of cell `ci` holds the color `c`.
pub open spec fn cell_is(pixels: Seq<Color>, width: int, size: int, ci: int, c: Color) -> bool {
    forall|px: int, py: int|
        in_cell(width, size, ci, px, py) ==> #[trigger] pixel_at(pixels, width, px, py) == c
}

/// One channel of a color: 0 for red, 1 for green, anything else for blue.
pub open spec fn channel(c: Color, k: int) -> u8 {
    if k == 0 {
        c.r
    } else if k == 1 {
        c.g
    } else {
        c.b
    }
}

/// Sum of channel `k` over the first `n` pixels of a row starting at (x, y).
pub open spec fn row_channel_sum(
    pixels: Seq<Color>,
    width: int,
    x: int,
    y: int,
    n: int,
    k: int,
) -> int
    decreases n,
{
    if n <= 0 {
        0
    } else {
        row_channel_sum(pixels, width, x, y, n - 1, k) + channel(
            pixel_at(pixels, width, x + n - 1, y),
            k,
        )
    }
}

/// Sum of channel `k` over a block of `rows` rows of `size` pixels each,
/// anchored at (x, y).
pub open spec fn block_channel_sum(
    pixels: Seq<Color>,
    width: int,
    x: int,
    y: int,
    size: int,
    rows: int,
    k: int,
) -> int
    decreases rows,
{
    if rows <= 0 {
        0
    } else {
        block_channel_sum(pixels, width, x, y, size, rows - 1, k) + row_channel_sum(
            pixels,
            width,
            x,
            y + rows - 1,
            size,
            k,
        )
    }
}

/// The arithmetic mean of channel `k` over the pixels of cell `ci`.
pub open spec fn cell_average_channel(
    pixels: Seq<Color>,
    width: int,
    size: int,
    ci: int,
    k: int,
) -> int {
    block_channel_sum(
        pixels,
        width,
        cell_origin_x(width, size, ci),
        cell_origin_y(width, size, ci),
        size,
        size,
        k,
    ) / (size * size)
}

/// The effective color of cell `ci`, recovered by averaging each channel over
/// the whole block.
pub open spec fn cell_average(pixels: Seq<Color>, width: int, size: int, ci: int) -> Color {
    Color {
        r: cell_average_channel(pixels, width, size, ci, 0) as u8,
        g: cell_average_channel(pixels, width, size, ci, 1) as u8,
        b: cell_average_channel(pixels, width, size, ci, 2) as u8,
    }
}

/// The block of a valid cell lies inside the frame.
pub proof fn lemma_cell_origin_in_range(width: int, height: int, size: int, ci: int)
    requires
        grid_aligned(width, height, size),
        0 <= ci < cell_count(width, height, size),
    ensures
        0 <= cell_origin_x(width, size, ci),
        cell_origin_x(width, size, ci) + size <= width,
        0 <= cell_origin_y(width, size, ci),
        cell_origin_y(width, size, ci) + size <= height,
{
    let cpr = width / size;
    let rows = height / size;
    assert(cpr >= 1 && rows >= 1) by {
        lemma_div_pos_is_pos(width, size);
        lemma_div_pos_is_pos(height, size);
        assert(cpr >= 0 && rows >= 0 && cpr * rows > 0 ==> cpr >= 1 && rows >= 1)
            by (nonlinear_arith);
    }
    lemma_fundamental_div_mod(width, size);
    lemma_fundamental_div_mod(height, size);
    lemma_mod_pos_bound(ci, cpr);
    lemma_mul_inequality(ci % cpr, cpr - 1, size);
    assert((cpr - 1) * size == cpr * size - size) by (nonlinear_arith);
    assert(cpr * size == width) by (nonlinear_arith)
        requires
            width == size * cpr,
    ;
    lemma_multiply_divide_lt(ci, cpr, rows);
    lemma_mul_inequality(ci / cpr, rows - 1, size);
    assert((rows - 1) * size == rows * size - size) by (nonlinear_arith);
    assert(rows * size == height) by (nonlinear_arith)
        requires
            height == size * rows,
    ;
    assert(0 <= ci % cpr * size && 0 <= ci / cpr * size) by (nonlinear_arith)
        requires
            0 <= ci % cpr && 0 <= ci / cpr && size >= 1,
    ;
}

/// A pixel inside the block of a valid cell belongs to that cell and to no
/// other.
pub proof fn lemma_cell_of_block_pixel(width: int, height: int, size: int, ci: int, px: int, py: int)
    requires
        grid_aligned(width, height, size),
        0 <= ci < cell_count(width, height, size),
        in_cell(width, size, ci, px, py),
    ensures
        cell_index_of(width, size, px, py) == ci,
{
    let cpr = width / size;
    assert(cpr >= 1) by {
        lemma_div_pos_is_pos(width, size);
        lemma_div_pos_is_pos(height, size);
        assert(cpr >= 0 && height / size >= 0 && cpr * (height / size) > 0 ==> cpr >= 1)
            by (nonlinear_arith);
    }
    lemma_mod_pos_bound(ci, cpr);
    lemma_fundamental_div_mod_converse(px, size, ci % cpr, px - (ci % cpr) * size);
    lemma_fundamental_div_mod_converse(py, size, ci / cpr, py - (ci / cpr) * size);
    lemma_fundamental_div_mod(ci, cpr);
    assert(px / size == ci % cpr);
    assert(py / size == ci / cpr);
    assert(cpr * (ci / cpr) == (ci / cpr) * cpr) by (nonlinear_arith);
    assert(cell_index_of(width, size, px, py) == (ci / cpr) * cpr + ci % cpr);
}

/// Every pixel of the frame lies in exactly the cell that `cell_index_of`
/// names, and that cell is valid.
pub proof fn lemma_pixel_cell(width: int, height: int, size: int, px: int, py: int)
    requires
        grid_aligned(width, height, size),
        0 <= px < width,
        0 <= py < height,
    ensures
        0 <= cell_index_of(width, size, px, py) < cell_count(width, height, size),
        in_cell(width, size, cell_index_of(width, size, px, py), px, py),
{
    let cpr = width / size;
    let rows = height / size;
    lemma_fundamental_div_mod(width, size);
    lemma_fundamental_div_mod(height, size);
    assert(cpr * size == width && rows * size == height) by (nonlinear_arith)
        requires
            width == size * cpr + 0 && height == size * rows + 0,
    ;
    lemma_multiply_divide_lt(px, size, cpr);
    lemma_multiply_divide_lt(py, size, rows);
    lemma_fundamental_div_mod(px, size);
    lemma_fundamental_div_mod(py, size);
    let ci = cell_index_of(width, size, px, py);
    assert(0 <= px / size && 0 <= py / size) by (nonlinear_arith)
        requires
            0 <= px && 0 <= py && size >= 1,
    ;
    assert(ci < cpr * rows) by (nonlinear_arith)
        requires
            ci == py / size * cpr + px / size && px / size < cpr && py / size <= rows - 1 && 0 <= px
                / size && 0 <= py / size && cpr >= 1,
    ;
    lemma_fundamental_div_mod_converse(ci, cpr, py / size, px / size);
    assert(cell_origin_x(width, size, ci) == px / size * size);
    assert(cell_origin_y(width, size, ci) == py / size * size);
    assert(px / size * size <= px < px / size * size + size) by (nonlinear_arith)
        requires
            px == size * (px / size) + px % size && 0 <= px % size < size,
    ;
    assert(py / size * size <= py < py / size * size + size) by (nonlinear_arith)
        requires
            py == size * (py / size) + py % size && 0 <= py % size < size,
    ;
}

/// A grid of u16-sized resolution holds at most 65535 * 65535 cells.
pub proof fn lemma_cell_count_bound(width: int, height: int, size: int)
    requires
        grid_aligned(width, height, size),
        width <= 65535,
        height <= 65535,
    ensures
        0 <= cell_count(width, height, size) <= 65535 * 65535,
{
    let cpr = width / size;
    let rows = height / size;
    lemma_div_pos_is_pos(width, size);
    lemma_div_pos_is_pos(height, size);
    lemma_div_nonincreasing(width, size);
    lemma_div_nonincreasing(height, size);
    assert(0 <= cpr * rows <= 65535 * 65535) by (nonlinear_arith)
        requires
            0 <= cpr <= 65535 && 0 <= rows <= 65535,
    ;
}

/// Origin coordinates remain within the frame for the cell one past any valid
/// cell: when the grid is exactly filled, they point to the row after the
/// last one.
pub proof fn lemma_cell_origin_bounds(width: int, height: int, size: int, nc: int)
    requires
        grid_aligned(width, height, size),
        cell_count(width, height, size) >= 1,
        0 <= nc <= cell_count(width, height, size),
    ensures
        0 <= cell_origin_x(width, size, nc) <= width,
        0 <= cell_origin_y(width, size, nc) <= height,
{
    if nc < cell_count(width, height, size) {
        lemma_cell_origin_in_range(width, height, size, nc);
    } else {
        let cpr = width / size;
        let rows = height / size;
        assert(cpr >= 1 && rows >= 1) by {
            lemma_div_pos_is_pos(width, size);
            lemma_div_pos_is_pos(height, size);
            assert(cpr >= 0 && rows >= 0 && cpr * rows > 0 ==> cpr >= 1 && rows >= 1)
                by (nonlinear_arith);
        }
        lemma_mod_multiples_basic(rows, cpr);
        lemma_div_multiples_vanish(rows, cpr);
        assert(cpr * rows == rows * cpr) by (nonlinear_arith);
        assert(nc % cpr == 0 && nc / cpr == rows);
        lemma_fundamental_div_mod(height, size);
        assert(rows * size == height) by (nonlinear_arith)
            requires
                height == size * rows,
        ;
    }
}

/// Row-major pixel indices are unique per coordinate pair.
pub proof fn lemma_pixel_index_injective(width: int, px1: int, py1: int, px2: int, py2: int)
    requires
        width > 0,
        0 <= px1 < width,
        0 <= px2 < width,
        py1 >= 0,
        py2 >= 0,
        py1 * width + px1 == py2 * width + px2,
    ensures
        px1 == px2 && py1 == py2,
{
    lemma_fundamental_div_mod_converse(py1 * width + px1, width, py1, px1);
    lemma_fundamental_div_mod_converse(py2 * width + px2, width, py2, px2);
}

/// A pixel coordinate pair maps to a row-major index inside the frame.
pub proof fn lemma_pixel_index_bound(width: int, height: int, px: int, py: int)
    requires
        0 <= px < width,
        0 <= py < height,
    ensures
        0 <= py * width + px < width * height,
{
    assert(0 <= py * width + px < width * height) by (nonlinear_arith)
        requires
            0 <= px < width && 0 <= py < height,
    ;
}

/// Writing one cell leaves every other cell as it was.
pub proof fn lemma_cell_is_preserved(
    prev: Seq<Color>,
    cur: Seq<Color>,
    width: int,
    height: int,
    size: int,
    ci: int,
    cj: int,
    c: Color,
)
    requires
        grid_aligned(width, height, size),
        0 <= ci < cell_count(width, height, size),
        0 <= cj < cell_count(width, height, size),
        ci != cj,
        cell_is(prev, width, size, cj, c),
        forall|px: int, py: int|
            0 <= px < width && 0 <= py < height && !in_cell(width, size, ci, px, py)
                ==> #[trigger] pixel_at(cur, width, px, py) == pixel_at(prev, width, px, py),
    ensures
        cell_is(cur, width, size, cj, c),
{
    assert forall|px: int, py: int| in_cell(width, size, cj, px, py) implies #[trigger] pixel_at(
        cur,
        width,
        px,
        py,
    ) == c by {
        lemma_cell_origin_in_range(width, height, size, cj);
        if in_cell(width, size, ci, px, py) {
            lemma_cell_of_block_pixel(width, height, size, ci, px, py);
            lemma_cell_of_block_pixel(width, height, size, cj, px, py);
        }
        assert(pixel_at(prev, width, px, py) == c);
    }
}

/// Uniform cells average back to exactly the color they were written with.
pub proof fn lemma_cell_average_uniform(
    pixels: Seq<Color>,
    width: int,
    height: int,
    size: int,
    ci: int,
    c: Color,
)
    requires
        grid_aligned(width, height, size),
        0 <= ci < cell_count(width, height, size),
        cell_is(pixels, width, size, ci, c),
    ensures
        cell_average(pixels, width, size, ci) == c,
{
    let x = cell_origin_x(width, size, ci);
    let y = cell_origin_y(width, size, ci);
    assert forall|k: int| 0 <= k < 3 implies cell_average_channel(pixels, width, size, ci, k)
        == channel(c, k) by {
        lemma_block_sum_uniform(pixels, width, size, ci, x, y, size, k, c);
        assert(size * size >= 1) by (nonlinear_arith)
            requires
                size >= 1,
        ;
        assert(size * size * channel(c, k) / (size * size) == channel(c, k)) by {
            vstd::arithmetic::div_mod::lemma_div_multiples_vanish(
                channel(c, k) as int,
                size * size,
            );
        }
    }
    assert(cell_average_channel(pixels, width, size, ci, 0) == c.r);
    assert(cell_average_channel(pixels, width, size, ci, 1) == c.g);
    assert(cell_average_channel(pixels, width, size, ci, 2) == c.b);
}

proof fn lemma_row_sum_uniform(
    pixels: Seq<Color>,
    width: int,
    size: int,
    ci: int,
    x: int,
    y: int,
    n: int,
    k: int,
    c: Color,
)
    requires
        cell_is(pixels, width, size, ci, c),
        x == cell_origin_x(width, size, ci),
        cell_origin_y(width, size, ci) <= y < cell_origin_y(width, size, ci) + size,
        0 <= n <= size,
    ensures
        row_channel_sum(pixels, width, x, y, n, k) == n * channel(c, k),
    decreases n,
{
    if n <= 0 {
        assert(0 * channel(c, k) == 0) by (nonlinear_arith);
    } else {
        lemma_row_sum_uniform(pixels, width, size, ci, x, y, n - 1, k, c);
        assert(in_cell(width, size, ci, x + n - 1, y));
        assert(pixel_at(pixels, width, x + n - 1, y) == c);
        assert((n - 1) * channel(c, k) + channel(c, k) == n * channel(c, k)) by (nonlinear_arith);
    }
}

proof fn lemma_block_sum_uniform(
    pixels: Seq<Color>,
    width: int,
    size: int,
    ci: int,
    x: int,
    y: int,
    rows: int,
    k: int,
    c: Color,
)
    requires
        cell_is(pixels, width, size, ci, c),
        x == cell_origin_x(width, size, ci),
        y == cell_origin_y(width, size, ci),
        0 <= rows <= size,
    ensures
        block_channel_sum(pixels, width, x, y, size, rows, k) == rows * size * channel(c, k),
    decreases rows,
{
    if rows <= 0 {
        assert(0 * size * channel(c, k) == 0) by (nonlinear_arith);
    } else {
        lemma_block_sum_uniform(pixels, width, size, ci, x, y, rows - 1, k, c);
        lemma_row_sum_uniform(pixels, width, size, ci, x, y + rows - 1, size, k, c);
        assert((rows - 1) * size * channel(c, k) + size * channel(c, k) == rows * size * channel(
            c,
            k,
        )) by (nonlinear_arith);
    }
}

/// Define a single frame that the video will play.
/// E.g. on a 30 fps video, there will be 30 frames every second.
///
/// The grid is stored as one row-major sequence of pixel colors.
#[derive(Clone)]
pub struct VideoFrame {
    /// Row-major pixel colors, `width * height` of them.
    pub pixels: Vec<Color>,
    /// Width of the frame in pixels.
    pub width: u16,
    /// Height of the frame in pixels.
    pub height: u16,
}

impl VideoFrame {
    /// The pixel storage matches the declared resolution.
    pub open spec fn wf(&self) -> bool {
        self.pixels@.len() == self.width as int * self.height as int
    }

    pub fn new(width: u16, height: u16) -> (frame: VideoFrame)
        ensures
            frame.wf(),
            frame.width == width,
            frame.height == height,
            forall|i: int|
                0 <= i < frame.pixels@.len() ==> frame.pixels@[i] == (Color { r: 0, g: 0, b: 0 }),
    {
        proof {
            assert(width as int * height as int <= 65535 * 65535) by (nonlinear_arith)
                requires
                    width <= 65535 && height <= 65535,
            ;
        }
        let total: usize = width as usize * height as usize;
        let mut pixels: Vec<Color> = Vec::new();
        while pixels.len() < total
            invariant
                pixels@.len() <= total,
                forall|i: int| 0 <= i < pixels@.len() ==> pixels@[i] == (Color { r: 0, g: 0, b: 0 }),
            decreases total - pixels@.len(),
        {
            pixels.push(Color { r: 0, g: 0, b: 0 });
        }
        VideoFrame { pixels, width, height }
    }

    /// Build a frame from an already-decoded pixel grid, checking that the
    /// grid matches the declared resolution and that the height is a whole
    /// number of cells.
    pub fn from(pixels: Vec<Color>, width: u16, height: u16, size: u8) -> (result: Result<
        VideoFrame,
        String,
    >)
        requires
            size >= 1,
        ensures
            match result {
                Ok(frame) => {
                    &&& frame.wf()
                    &&& frame.width == width
                    &&& frame.height == height
                    &&& frame.pixels@ == pixels@
                    &&& height as int % size as int == 0
                },
                Err(_) => height as int % size as int != 0 || pixels@.len() != width as int
                    * height as int,
            },
    {
        if height as usize % size as usize != 0 {
            return Err("Image size is not a multiple of the size".to_string());
        }
        proof {
            assert(width as int * height as int <= 65535 * 65535) by (nonlinear_arith)
                requires
                    width <= 65535 && height <= 65535,
            ;
        }
        if pixels.len() != width as usize * height as usize {
            return Err("Image does not hold one color per pixel".to_string());
        }
        Ok(VideoFrame { pixels, width, height })
    }

    /// Read the color of a single pixel.
    pub fn read_coordinate_color(&self, x: u16, y: u16) -> (color: Color)
        requires
            self.wf(),
            x < self.width,
            y < self.height,
        ensures
            color == pixel_at(self.pixels@, self.width as int, x as int, y as int),
    {
        proof {
            lemma_pixel_index_bound(self.width as int, self.height as int, x as int, y as int);
            assert(self.width as int * self.height as int <= 65535 * 65535) by (nonlinear_arith)
                requires
                    self.width <= 65535 && self.height <= 65535,
            ;
        }
        let idx: usize = y as usize * self.width as usize + x as usize;
        self.pixels[idx]
    }

    /// Fill the size-by-size pixel block anchored at (x, y) with one color.
    pub fn write(&mut self, r: u8, g: u8, b: u8, x: u16, y: u16, size: u8)
        requires
            old(self).wf(),
            x + size <= old(self).width,
            y + size <= old(self).height,
        ensures
            final(self).wf(),
            final(self).width == old(self).width,
            final(self).height == old(self).height,
            forall|px: int, py: int|
                x <= px < x + size && y <= py < y + size ==> #[trigger] pixel_at(
                    final(self).pixels@,
                    old(self).width as int,
                    px,
                    py,
                ) == (Color { r, g, b }),
            forall|px: int, py: int|
                0 <= px < old(self).width && 0 <= py < old(self).height && !(x <= px < x + size && y
                    <= py < y + size) ==> #[trigger] pixel_at(
                    final(self).pixels@,
                    old(self).width as int,
                    px,
                    py,
                ) == pixel_at(old(self).pixels@, old(self).width as int, px, py),
    {
        let color = Color { r, g, b };
        let w: usize = self.width as usize;
        let ghost width_int = self.width as int;
        let ghost height_int = self.height as int;
        let mut i: usize = 0;
        while i < size as usize
            invariant
                self.wf(),
                self.width == old(self).width,
                self.height == old(self).height,
                w == self.width as usize,
                width_int == self.width as int,
                height_int == self.height as int,
                i <= size,
                x + size <= self.width,
                y + size <= self.height,
                forall|px: int, py: int|
                    x <= px < x + size && y <= py < y + i ==> #[trigger] pixel_at(
                        self.pixels@,
                        width_int,
                        px,
                        py,
                    ) == color,
                forall|px: int, py: int|
                    0 <= px < width_int && 0 <= py < height_int && !(x <= px < x + size && y <= py
                        < y + i) ==> #[trigger] pixel_at(self.pixels@, width_int, px, py)
                        == pixel_at(old(self).pixels@, width_int, px, py),
            decreases size - i,
        {
            let mut j: usize = 0;
            while j < size as usize
                invariant
                    self.wf(),
                    self.width == old(self).width,
                    self.height == old(self).height,
                    w == self.width as usize,
                    width_int == self.width as int,
                    height_int == self.height as int,
                    i < size,
                    j <= size,
                    x + size <= self.width,
                    y + size <= self.height,
                    forall|px: int, py: int|
                        x <= px < x + size && y <= py < y + i ==> #[trigger] pixel_at(
                            self.pixels@,
                            width_int,
                            px,
                            py,
                        ) == color,
                    forall|px: int|
                        x <= px < x + j ==> #[trigger] pixel_at(
                            self.pixels@,
                            width_int,
                            px,
                            y + i,
                        ) == color,
                    forall|px: int, py: int|
                        0 <= px < width_int && 0 <= py < height_int && !(x <= px < x + size && y
                            <= py < y + i) && !(x <= px < x + j && py == y + i) ==> #[trigger] pixel_at(
                            self.pixels@,
                            width_int,
                            px,
                            py,
                        ) == pixel_at(old(self).pixels@, width_int, px, py),
                decreases size - j,
            {
                proof {
                    lemma_pixel_index_bound(
                        width_int,
                        height_int,
                        x as int + j as int,
                        y as int + i as int,
                    );
                    assert(width_int * height_int <= 65535 * 65535) by (nonlinear_arith)
                        requires
                            0 <= width_int <= 65535 && 0 <= height_int <= 65535,
                    ;
                }
                let idx: usize = (y as usize + i) * w + (x as usize + j);
                let ghost before = self.pixels@;
                self.pixels[idx] = color;
                proof {
                    assert forall|px: int, py: int|
                        0 <= px < width_int && 0 <= py < height_int && !(px == x + j && py == y
                            + i) implies #[trigger] pixel_at(self.pixels@, width_int, px, py)
                        == pixel_at(before, width_int, px, py) by {
                        lemma_pixel_index_bound(width_int, height_int, px, py);
                        if py * width_int + px == idx as int {
                            lemma_pixel_index_injective(
                                width_int,
                                px,
                                py,
                                x as int + j as int,
                                y as int + i as int,
                            );
                        }
                    }
                    assert(pixel_at(self.pixels@, width_int, x + j as int, y + i as int) == color);
                }
                j = j + 1;
            }
            i = i + 1;
        }
    }

    /// Fill the whole block of cell `ci` with one color.
    pub(crate) fn write_cell(&mut self, ci: usize, color: Color, size: u8)
        requires
            old(self).wf(),
            grid_aligned(old(self).width as int, old(self).height as int, size as int),
            ci < cell_count(old(self).width as int, old(self).height as int, size as int),
        ensures
            final(self).wf(),
            final(self).width == old(self).width,
            final(self).height == old(self).height,
            cell_is(final(self).pixels@, old(self).width as int, size as int, ci as int, color),
            forall|px: int, py: int|
                0 <= px < old(self).width && 0 <= py < old(self).height && !in_cell(
                    old(self).width as int,
                    size as int,
                    ci as int,
                    px,
                    py,
                ) ==> #[trigger] pixel_at(final(self).pixels@, old(self).width as int, px, py)
                    == pixel_at(old(self).pixels@, old(self).width as int, px, py),
    {
        let ghost w = self.width as int;
        let ghost h = self.height as int;
        proof {
            lemma_cell_origin_in_range(w, h, size as int, ci as int);
            assert(w / size as int >= 1) by {
                lemma_div_pos_is_pos(w, size as int);
                lemma_div_pos_is_pos(h, size as int);
                assert(w / size as int >= 0 && h / size as int >= 0 && w / size as int * (h
                    / size as int) > 0 ==> w / size as int >= 1) by (nonlinear_arith);
            }
        }
        let cpr: usize = self.width as usize / size as usize;
        let x: usize = (ci % cpr) * size as usize;
        let y: usize = (ci / cpr) * size as usize;
        proof {
            assert(x == cell_origin_x(w, size as int, ci as int));
            assert(y == cell_origin_y(w, size as int, ci as int));
        }
        self.write(color.r, color.g, color.b, x as u16, y as u16, size);
    }

    /// Write 64 header cells in row-major order, starting at `start_cell`.
    fn write_header_cells(&mut self, start_cell: usize, header: &Instruction, size: u8)
        requires
            old(self).wf(),
            grid_aligned(old(self).width as int, old(self).height as int, size as int),
            start_cell + 64 <= cell_count(
                old(self).width as int,
                old(self).height as int,
                size as int,
            ),
        ensures
            final(self).wf(),
            final(self).width == old(self).width,
            final(self).height == old(self).height,
            forall|t: int|
                0 <= t < 64 ==> cell_is(
                    final(self).pixels@,
                    old(self).width as int,
                    size as int,
                    start_cell + t,
                    bit_to_color(header@[t]),
                ),
            forall|px: int, py: int|
                0 <= px < old(self).width && 0 <= py < old(self).height && !(start_cell
                    <= cell_index_of(old(self).width as int, size as int, px, py) < start_cell
                    + 64) ==> #[trigger] pixel_at(final(self).pixels@, old(self).width as int, px, py)
                    == pixel_at(old(self).pixels@, old(self).width as int, px, py),
    {
        let ghost w = self.width as int;
        let ghost h = self.height as int;
        let ghost s = size as int;
        let mut t: usize = 0;
        while t < 64
            invariant
                t <= 64,
                self.wf(),
                self.width == old(self).width,
                self.height == old(self).height,
                grid_aligned(w, h, s),
                w == old(self).width as int,
                h == old(self).height as int,
                s == size as int,
                start_cell + 64 <= cell_count(w, h, s),
                forall|u: int|
                    0 <= u < t ==> cell_is(
                        self.pixels@,
                        w,
                        s,
                        start_cell + u,
                        bit_to_color(header@[u]),
                    ),
                forall|px: int, py: int|
                    0 <= px < w && 0 <= py < h && !(start_cell <= cell_index_of(w, s, px, py)
                        < start_cell + t) ==> #[trigger] pixel_at(self.pixels@, w, px, py)
                        == pixel_at(old(self).pixels@, w, px, py),
            decreases 64 - t,
        {
            let (r, g, b) = get_rgb_for_bit(header.relevant_byte_count_in_64bits[t]);
            let ghost prev = *self;
            proof {
                lemma_cell_count_bound(w, h, s);
            }
            self.write_cell(start_cell + t, Color { r, g, b }, size);
            proof {
                let ci = start_cell + t as int;
                assert(cell_is(self.pixels@, w, s, ci, bit_to_color(header@[t as int])));
                assert forall|u: int| 0 <= u < t + 1 implies cell_is(
                    self.pixels@,
                    w,
                    s,
                    start_cell + u,
                    bit_to_color(header@[u]),
                ) by {
                    if u < t {
                        lemma_cell_is_preserved(
                            prev.pixels@,
                            self.pixels@,
                            w,
                            h,
                            s,
                            ci,
                            start_cell + u,
                            bit_to_color(header@[u]),
                        );
                    }
                }
                assert forall|px: int, py: int|
                    0 <= px < w && 0 <= py < h && !(start_cell <= cell_index_of(w, s, px, py)
                        < start_cell + t + 1) implies #[trigger] pixel_at(self.pixels@, w, px, py)
                    == pixel_at(old(self).pixels@, w, px, py) by {
                    lemma_pixel_cell(w, h, s, px, py);
                    if in_cell(w, s, ci, px, py) {
                        lemma_cell_of_block_pixel(w, h, s, ci, px, py);
                    }
                    assert(pixel_at(self.pixels@, w, px, py) == pixel_at(prev.pixels@, w, px, py));
                }
            }
            t = t + 1;
        }
    }

    /// Pixel coordinates of a cell, including the cell one past the end of
    /// the grid.
    fn cell_coordinates(&self, nc: usize, size: u8) -> (position: (u16, u16))
        requires
            self.wf(),
            grid_aligned(self.width as int, self.height as int, size as int),
            cell_count(self.width as int, self.height as int, size as int) >= 1,
            nc <= cell_count(self.width as int, self.height as int, size as int),
        ensures
            position.0 as int == cell_origin_x(self.width as int, size as int, nc as int),
            position.1 as int == cell_origin_y(self.width as int, size as int, nc as int),
    {
        let ghost w = self.width as int;
        let ghost h = self.height as int;
        proof {
            lemma_cell_origin_bounds(w, h, size as int, nc as int);
            assert(w / size as int >= 1) by {
                lemma_div_pos_is_pos(w, size as int);
                lemma_div_pos_is_pos(h, size as int);
                assert(w / size as int >= 0 && h / size as int >= 0 && w / size as int * (h
                    / size as int) > 0 ==> w / size as int >= 1) by (nonlinear_arith);
            }
        }
        let cpr: usize = self.width as usize / size as usize;
        let x: usize = (nc % cpr) * size as usize;
        let y: usize = (nc / cpr) * size as usize;
        (x as u16, y as u16)
    }

    /// Write at the beginning of the frame the instruction using the reserved
    /// space: 64 cells, black and white regardless of the content mode.
    /// Returns the coordinate of the next free cell.
    pub fn write_instruction(&mut self, instruction: &Instruction, size: u8) -> (next: (u16, u16))
        requires
            old(self).wf(),
            grid_aligned(old(self).width as int, old(self).height as int, size as int),
            cell_count(old(self).width as int, old(self).height as int, size as int) >= 64,
        ensures
            final(self).wf(),
            final(self).width == old(self).width,
            final(self).height == old(self).height,
            forall|t: int|
                0 <= t < 64 ==> cell_is(
                    final(self).pixels@,
                    old(self).width as int,
                    size as int,
                    t,
                    bit_to_color(instruction@[t]),
                ),
            forall|px: int, py: int|
                0 <= px < old(self).width && 0 <= py < old(self).height && cell_index_of(
                    old(self).width as int,
                    size as int,
                    px,
                    py,
                ) >= 64 ==> #[trigger] pixel_at(final(self).pixels@, old(self).width as int, px, py)
                    == pixel_at(old(self).pixels@, old(self).width as int, px, py),
            next.0 as int == cell_origin_x(old(self).width as int, size as int, 64),
            next.1 as int == cell_origin_y(old(self).width as int, size as int, 64),
    {
        let ghost w = self.width as int;
        let ghost h = self.height as int;
        let ghost s = size as int;
        self.write_header_cells(0, instruction, size);
        proof {
            assert forall|px: int, py: int|
                0 <= px < w && 0 <= py < h && cell_index_of(w, s, px, py)
                    >= 64 implies #[trigger] pixel_at(self.pixels@, w, px, py) == pixel_at(
                old(self).pixels@,
                w,
                px,
                py,
            ) by {
                lemma_pixel_cell(w, h, s, px, py);
            }
        }
        self.cell_coordinates(64, size)
    }

    /// Write the page number at a specific location: 64 cells in row-major
    /// order starting at (x_start, y_start). Returns the coordinate of the
    /// next free cell.
    pub fn write_pagination(&mut self, x_start: u16, y_start: u16, pagination: &u64, size: u8) -> (next: (
        u16,
        u16,
    ))
        requires
            old(self).wf(),
            grid_aligned(old(self).width as int, old(self).height as int, size as int),
            x_start < old(self).width,
            y_start < old(self).height,
            x_start as int % size as int == 0,
            y_start as int % size as int == 0,
            cell_index_of(old(self).width as int, size as int, x_start as int, y_start as int) + 64
                <= cell_count(old(self).width as int, old(self).height as int, size as int),
        ensures
            final(self).wf(),
            final(self).width == old(self).width,
            final(self).height == old(self).height,
            forall|t: int|
                0 <= t < 64 ==> cell_is(
                    final(self).pixels@,
                    old(self).width as int,
                    size as int,
                    cell_index_of(
                        old(self).width as int,
                        size as int,
                        x_start as int,
                        y_start as int,
                    ) + t,
                    bit_to_color(u64_bits_msb(*pagination)[t]),
                ),
            forall|px: int, py: int|
                0 <= px < old(self).width && 0 <= py < old(self).height && !(cell_index_of(
                    old(self).width as int,
                    size as int,
                    x_start as int,
                    y_start as int,
                ) <= cell_index_of(old(self).width as int, size as int, px, py) < cell_index_of(
                    old(self).width as int,
                    size as int,
                    x_start as int,
                    y_start as int,
                ) + 64) ==> #[trigger] pixel_at(final(self).pixels@, old(self).width as int, px, py)
                    == pixel_at(old(self).pixels@, old(self).width as int, px, py),
            next.0 as int == cell_origin_x(
                old(self).width as int,
                size as int,
                cell_index_of(old(self).width as int, size as int, x_start as int, y_start as int)
                    + 64,
            ),
            next.1 as int == cell_origin_y(
                old(self).width as int,
                size as int,
                cell_index_of(old(self).width as int, size as int, x_start as int, y_start as int)
                    + 64,
            ),
    {
        let ghost w = self.width as int;
        let ghost h = self.height as int;
        let ghost s = size as int;
        // The page number is carried by the same 64-cell codec as the
        // instruction.
        let pagination_instruction = Instruction::new(*pagination);
        proof {
            lemma_pixel_cell(w, h, s, x_start as int, y_start as int);
            lemma_cell_count_bound(w, h, s);
        }
        let cpr: usize = self.width as usize / size as usize;
        let start_cell: usize = (y_start as usize / size as usize) * cpr + x_start as usize
            / size as usize;
        self.write_header_cells(start_cell, &pagination_instruction, size);
        self.cell_coordinates(start_cell + 64, size)
    }
}

} // verus!
