use vstd::prelude::*;

use crate::bitlogics::{get_bit_at, get_rgb_for_bit, u8_bit};
use crate::injectionextraction::{bit_to_color, Color, NULL_CHAR};
use crate::instructionlogics::{u64_bits_msb, Instruction};
use crate::options::{AlgoFrame, InjectOptions};
use crate::videoframe::{
    cell_count, cell_index_of, cell_is, grid_aligned, in_cell, lemma_cell_count_bound,
    lemma_cell_is_preserved, lemma_cell_of_block_pixel, lemma_cell_origin_in_range, pixel_at,
    VideoFrame,
};
use vstd::arithmetic::div_mod::lemma_div_pos_is_pos;
use vstd::arithmetic::div_mod::{
    lemma_fundamental_div_mod, lemma_fundamental_div_mod_converse,
    lemma_fundamental_div_mod_converse_div,
};

verus! {

/// How many payload bytes one data frame carries in RGB mode: three bytes per
/// content cell, one per color channel.
pub open spec fn bytes_per_frame_rgb(width: int, height: int, size: int) -> int {
    3 * (cell_count(width, height, size) - 64)
}

/// How many payload bytes one data frame carries in black-and-white mode: one
/// bit per content cell.
pub open spec fn bytes_per_frame_bw(width: int, height: int, size: int) -> int {
    (cell_count(width, height, size) - 64) / 8
}

/// How many payload bytes one data frame carries.
pub open spec fn bytes_per_frame(width: int, height: int, size: int, algo: AlgoFrame) -> int {
    if algo == AlgoFrame::RGB {
        bytes_per_frame_rgb(width, height, size)
    } else {
        bytes_per_frame_bw(width, height, size)
    }
}

/// How many data frames a payload of `data_len` bytes needs when each frame
/// carries `capacity` bytes: the division rounded up.
pub open spec fn spec_frame_count(data_len: int, capacity: int) -> int {
    (data_len + capacity - 1) / capacity
}

/// The payload byte at global position `g`, null once the payload is
/// exhausted.
pub open spec fn page_byte(data: Seq<u8>, g: int) -> u8 {
    if 0 <= g < data.len() {
        data[g]
    } else {
        NULL_CHAR
    }
}

/// The geometry and mode the encoder accepts: a regular grid with room for
/// the 64 header cells and at least one payload byte per frame, and in
/// black-and-white mode a grid whose cells align to byte boundaries.
pub open spec fn valid_geometry(width: int, height: int, size: int, algo: AlgoFrame) -> bool {
    &&& grid_aligned(width, height, size)
    &&& cell_count(width, height, size) > 64
    &&& (algo == AlgoFrame::BW ==> cell_count(width, height, size) % 8 == 0)
}

/// The frame has the resolution the options declare.
pub open spec fn frame_dims_ok(frame: VideoFrame, width: int, height: int) -> bool {
    &&& frame.wf()
    &&& frame.width == width
    &&& frame.height == height
}

/// The color of content cell `j` of a data frame whose page starts at payload
/// position `base`, in RGB mode: three consecutive payload bytes.
pub open spec fn rgb_content_color(data: Seq<u8>, base: int, j: int) -> Color {
    Color {
        r: page_byte(data, base + 3 * j),
        g: page_byte(data, base + 3 * j + 1),
        b: page_byte(data, base + 3 * j + 2),
    }
}

/// The color of content cell `j` of a data frame whose page starts at payload
/// byte `base`, in black-and-white mode: one payload bit, most significant
/// bit of each byte first.
pub open spec fn bw_content_color(data: Seq<u8>, base: int, j: int) -> Color {
    bit_to_color(u8_bit(page_byte(data, base + j / 8), (7 - j % 8) as u8))
}

/// The color of content cell `j` of the data frame of page `page`.
pub open spec fn data_frame_cell_color(
    data: Seq<u8>,
    width: int,
    height: int,
    size: int,
    algo: AlgoFrame,
    page: u64,
    j: int,
) -> Color {
    if algo == AlgoFrame::RGB {
        rgb_content_color(data, page * bytes_per_frame_rgb(width, height, size), j)
    } else {
        bw_content_color(data, page * bytes_per_frame_bw(width, height, size), j)
    }
}

/// A correctly encoded data frame: the 64 header cells carry the page number,
/// and every content cell carries its slice of the payload.
pub open spec fn spec_data_frame(
    frame: VideoFrame,
    width: int,
    height: int,
    size: int,
    algo: AlgoFrame,
    page: u64,
    data: Seq<u8>,
) -> bool {
    &&& frame_dims_ok(frame, width, height)
    &&& forall|t: int|
        0 <= t < 64 ==> #[trigger] cell_is(
            frame.pixels@,
            width,
            size,
            t,
            bit_to_color(u64_bits_msb(page)[t]),
        )
    &&& forall|j: int|
        0 <= j < cell_count(width, height, size) - 64 ==> #[trigger] cell_is(
            frame.pixels@,
            width,
            size,
            64 + j,
            data_frame_cell_color(data, width, height, size, algo, page, j),
        )
}

/// A correctly encoded sentinel frame: the 64 header cells carry the payload
/// length, and every content cell is the reserved marker color.
pub open spec fn spec_sentinel_frame(
    frame: VideoFrame,
    width: int,
    height: int,
    size: int,
    byte_len: u64,
) -> bool {
    &&& frame_dims_ok(frame, width, height)
    &&& forall|t: int|
        0 <= t < 64 ==> #[trigger] cell_is(
            frame.pixels@,
            width,
            size,
            t,
            bit_to_color(u64_bits_msb(byte_len)[t]),
        )
    &&& forall|j: int|
        0 <= j < cell_count(width, height, size) - 64 ==> #[trigger] cell_is(
            frame.pixels@,
            width,
            size,
            64 + j,
            Color { r: 255, g: 0, b: 0 },
        )
}

/// Create a starting frame to indicate that we are starting the transmission
/// of the data.
///
/// Needed because the source will play the video with all the data in a loop:
/// the consumer catches this frame, reads the payload length from it, and
/// discards its filler content.
pub fn create_starting_frame(instruction: &Instruction, inject_options: &InjectOptions) -> (frame:
    VideoFrame)
    requires
        grid_aligned(
            inject_options.width as int,
            inject_options.height as int,
            inject_options.size as int,
        ),
        cell_count(
            inject_options.width as int,
            inject_options.height as int,
            inject_options.size as int,
        ) >= 64,
    ensures
        frame_dims_ok(frame, inject_options.width as int, inject_options.height as int),
        forall|t: int|
            0 <= t < 64 ==> #[trigger] cell_is(
                frame.pixels@,
                inject_options.width as int,
                inject_options.size as int,
                t,
                bit_to_color(instruction@[t]),
            ),
        forall|j: int|
            0 <= j < cell_count(
                inject_options.width as int,
                inject_options.height as int,
                inject_options.size as int,
            ) - 64 ==> #[trigger] cell_is(
                frame.pixels@,
                inject_options.width as int,
                inject_options.size as int,
                64 + j,
                Color { r: 255, g: 0, b: 0 },
            ),
{
    let width = inject_options.width;
    let height = inject_options.height;
    let size = inject_options.size;
    let ghost w = width as int;
    let ghost h = height as int;
    let ghost s = size as int;
    let mut frame = VideoFrame::new(width, height);
    proof {
        lemma_cell_count_bound(w, h, s);
    }
    let total_cells: usize = (width as usize / size as usize) * (height as usize / size as usize);
    let red = Color { r: 255, g: 0, b: 0 };
    let mut ci: usize = 0;
    while ci < total_cells
        invariant
            ci <= total_cells,
            frame.wf(),
            frame.width == width,
            frame.height == height,
            w == width as int,
            h == height as int,
            s == size as int,
            grid_aligned(w, h, s),
            total_cells == cell_count(w, h, s),
            forall|u: int| 0 <= u < ci ==> #[trigger] cell_is(frame.pixels@, w, s, u, red),
        decreases total_cells - ci,
    {
        let ghost prev = frame;
        frame.write_cell(ci, red, size);
        proof {
            assert forall|u: int| 0 <= u < ci + 1 implies #[trigger] cell_is(
                frame.pixels@,
                w,
                s,
                u,
                red,
            ) by {
                if u < ci {
                    lemma_cell_is_preserved(
                        prev.pixels@,
                        frame.pixels@,
                        w,
                        h,
                        s,
                        ci as int,
                        u,
                        red,
                    );
                }
            }
        }
        ci = ci + 1;
    }
    let ghost painted = frame;
    frame.write_instruction(instruction, size);
    proof {
        assert forall|j: int| 0 <= j < cell_count(w, h, s) - 64 implies #[trigger] cell_is(
            frame.pixels@,
            w,
            s,
            64 + j,
            red,
        ) by {
            assert(cell_is(painted.pixels@, w, s, 64 + j, red));
            assert forall|px: int, py: int| in_cell(w, s, 64 + j, px, py) implies #[trigger] pixel_at(
                frame.pixels@,
                w,
                px,
                py,
            ) == red by {
                lemma_cell_origin_in_range(w, h, s, 64 + j);
                lemma_cell_of_block_pixel(w, h, s, 64 + j, px, py);
                assert(pixel_at(painted.pixels@, w, px, py) == red);
            }
        }
    }
    frame
}

/// Split the payload into data frames, by the configured mode.
pub fn data_to_frames(inject_options: &InjectOptions, data: Vec<u8>) -> (frames: Vec<VideoFrame>)
    requires
        valid_geometry(
            inject_options.width as int,
            inject_options.height as int,
            inject_options.size as int,
            inject_options.algo,
        ),
        data@.len() + bytes_per_frame(
            inject_options.width as int,
            inject_options.height as int,
            inject_options.size as int,
            inject_options.algo,
        ) <= usize::MAX,
    ensures
        frames@.len() == spec_frame_count(
            data@.len() as int,
            bytes_per_frame(
                inject_options.width as int,
                inject_options.height as int,
                inject_options.size as int,
                inject_options.algo,
            ),
        ),
        forall|k: int|
            0 <= k < frames@.len() ==> #[trigger] spec_data_frame(
                frames@[k],
                inject_options.width as int,
                inject_options.height as int,
                inject_options.size as int,
                inject_options.algo,
                k as u64,
                data@,
            ),
{
    if inject_options.algo == AlgoFrame::RGB {
        data_to_frames_method_rgb(inject_options, data)
    } else {
        data_to_frames_method_bw(inject_options, data)
    }
}


/// Under a valid geometry every data frame carries at least one payload byte.
pub proof fn lemma_capacity_positive(width: int, height: int, size: int, algo: AlgoFrame)
    requires
        valid_geometry(width, height, size, algo),
    ensures
        bytes_per_frame(width, height, size, algo) >= 1,
        algo == AlgoFrame::BW ==> (cell_count(width, height, size) - 64) % 8 == 0 && 8
            * bytes_per_frame_bw(width, height, size) == cell_count(width, height, size) - 64,
{
    let n = cell_count(width, height, size);
    if algo == AlgoFrame::BW {
        lemma_fundamental_div_mod(n, 8);
        let m = n / 8;
        assert(n == 8 * m);
        assert(m >= 9);
        lemma_fundamental_div_mod_converse(n - 64, 8, m - 8, 0);
    }
}

/// A loop that fills whole frames until the payload is exhausted produces the
/// rounded-up number of frames.
proof fn lemma_frame_count_from_loop(total: int, cap: int, n: int)
    requires
        cap >= 1,
        total >= 0,
        n >= 0,
        n * cap >= total,
        n == 0 ==> total == 0,
        n >= 1 ==> (n - 1) * cap < total,
    ensures
        n == spec_frame_count(total, cap),
{
    if n == 0 {
        lemma_fundamental_div_mod_converse_div(total + cap - 1, cap, 0, cap - 1);
    } else {
        assert((n - 1) * cap == n * cap - cap) by (nonlinear_arith);
        lemma_fundamental_div_mod_converse_div(total + cap - 1, cap, n, total + cap - 1 - n * cap);
    }
}

/// Move data into many frames of the video using RGB: each content cell
/// carries three payload bytes, one per color channel.
pub fn data_to_frames_method_rgb(inject_options: &InjectOptions, data: Vec<u8>) -> (frames: Vec<
    VideoFrame,
>)
    requires
        inject_options.algo == AlgoFrame::RGB,
        valid_geometry(
            inject_options.width as int,
            inject_options.height as int,
            inject_options.size as int,
            inject_options.algo,
        ),
        data@.len() + bytes_per_frame_rgb(
            inject_options.width as int,
            inject_options.height as int,
            inject_options.size as int,
        ) <= usize::MAX,
    ensures
        frames@.len() == spec_frame_count(
            data@.len() as int,
            bytes_per_frame_rgb(
                inject_options.width as int,
                inject_options.height as int,
                inject_options.size as int,
            ),
        ),
        forall|k: int|
            0 <= k < frames@.len() ==> #[trigger] spec_data_frame(
                frames@[k],
                inject_options.width as int,
                inject_options.height as int,
                inject_options.size as int,
                AlgoFrame::RGB,
                k as u64,
                data@,
            ),
{
    let width = inject_options.width;
    let height = inject_options.height;
    let size = inject_options.size;
    let ghost w = width as int;
    let ghost h = height as int;
    let ghost s = size as int;
    let ghost cap = bytes_per_frame_rgb(w, h, s);
    proof {
        lemma_cell_count_bound(w, h, s);
        lemma_geometry_positive(w, h, s);
    }
    let total_cells: usize = (width as usize / size as usize) * (height as usize / size as usize);
    let total_data: usize = data.len();
    let mut frames: Vec<VideoFrame> = Vec::new();
    let mut data_index: usize = 0;
    let mut page_number: u64 = 0;
    while data_index < total_data
        invariant
            grid_aligned(w, h, s),
            cell_count(w, h, s) > 64,
            w == inject_options.width as int,
            h == inject_options.height as int,
            s == inject_options.size as int,
            width == inject_options.width,
            height == inject_options.height,
            size == inject_options.size,
            inject_options.width >= 1,
            inject_options.height >= 1,
            cap == bytes_per_frame_rgb(w, h, s),
            total_cells == cell_count(w, h, s),
            total_data == data@.len(),
            total_data + cap <= usize::MAX,
            frames@.len() == page_number,
            page_number * cap == data_index,
            page_number >= 1 ==> (page_number - 1) * cap < total_data,
            page_number == 0 ==> data_index == 0,
            forall|k: int|
                0 <= k < page_number ==> #[trigger] spec_data_frame(
                    frames@[k],
                    w,
                    h,
                    s,
                    AlgoFrame::RGB,
                    k as u64,
                    data@,
                ),
        decreases total_data + cap - data_index,
    {
        let ghost base = page_number * cap as int;
        let mut frame = VideoFrame::new(width, height);
        proof {
            lemma_start_cell_zero(w, h, s);
        }
        frame.write_pagination(0, 0, &page_number, size);
        let mut ci: usize = 64;
        while ci < total_cells
            invariant
                64 <= ci <= total_cells,
                frame.wf(),
                frame.width == width,
                frame.height == height,
                w == width as int,
                h == height as int,
                s == size as int,
                grid_aligned(w, h, s),
                total_cells == cell_count(w, h, s),
                cell_count(w, h, s) > 64,
                cap == bytes_per_frame_rgb(w, h, s),
                total_data == data@.len(),
                total_data + cap <= usize::MAX,
                base == page_number * cap,
                base < total_data,
                data_index == base + 3 * (ci - 64),
                forall|t: int|
                    0 <= t < 64 ==> #[trigger] cell_is(
                        frame.pixels@,
                        w,
                        s,
                        t,
                        bit_to_color(u64_bits_msb(page_number)[t]),
                    ),
                forall|j: int|
                    0 <= j < ci - 64 ==> #[trigger] cell_is(
                        frame.pixels@,
                        w,
                        s,
                        64 + j,
                        rgb_content_color(data@, base, j),
                    ),
            decreases total_cells - ci,
        {
            let r = if data_index < total_data {
                data[data_index]
            } else {
                NULL_CHAR
            };
            let g = if data_index + 1 < total_data {
                data[data_index + 1]
            } else {
                NULL_CHAR
            };
            let b = if data_index + 2 < total_data {
                data[data_index + 2]
            } else {
                NULL_CHAR
            };
            let ghost prev = frame;
            frame.write_cell(ci, Color { r, g, b }, size);
            proof {
                let j = ci as int - 64;
                assert(Color { r, g, b } == rgb_content_color(data@, base, j));
                assert forall|t: int| 0 <= t < 64 implies #[trigger] cell_is(
                    frame.pixels@,
                    w,
                    s,
                    t,
                    bit_to_color(u64_bits_msb(page_number)[t]),
                ) by {
                    lemma_cell_is_preserved(
                        prev.pixels@,
                        frame.pixels@,
                        w,
                        h,
                        s,
                        ci as int,
                        t,
                        bit_to_color(u64_bits_msb(page_number)[t]),
                    );
                }
                assert forall|u: int| 0 <= u < j + 1 implies #[trigger] cell_is(
                    frame.pixels@,
                    w,
                    s,
                    64 + u,
                    rgb_content_color(data@, base, u),
                ) by {
                    if u < j {
                        lemma_cell_is_preserved(
                            prev.pixels@,
                            frame.pixels@,
                            w,
                            h,
                            s,
                            ci as int,
                            64 + u,
                            rgb_content_color(data@, base, u),
                        );
                    }
                }
            }
            data_index = data_index + 3;
            ci = ci + 1;
        }
        frames.push(frame);
        proof {
            assert(spec_data_frame(frame, w, h, s, AlgoFrame::RGB, page_number, data@));
            assert((page_number + 1) * cap == page_number * cap + cap) by (nonlinear_arith);
            assert(page_number <= page_number * cap) by (nonlinear_arith)
                requires
                    cap >= 1 && page_number >= 0,
            ;
        }
        page_number = page_number + 1;
    }
    proof {
        lemma_frame_count_from_loop(total_data as int, cap, page_number as int);
    }
    frames
}

/// Move data into many frames of the video using black and white: each
/// content cell carries one payload bit, most significant bit of each byte
/// first.
pub fn data_to_frames_method_bw(inject_options: &InjectOptions, data: Vec<u8>) -> (frames: Vec<
    VideoFrame,
>)
    requires
        inject_options.algo == AlgoFrame::BW,
        valid_geometry(
            inject_options.width as int,
            inject_options.height as int,
            inject_options.size as int,
            inject_options.algo,
        ),
        data@.len() + bytes_per_frame_bw(
            inject_options.width as int,
            inject_options.height as int,
            inject_options.size as int,
        ) <= usize::MAX,
    ensures
        frames@.len() == spec_frame_count(
            data@.len() as int,
            bytes_per_frame_bw(
                inject_options.width as int,
                inject_options.height as int,
                inject_options.size as int,
            ),
        ),
        forall|k: int|
            0 <= k < frames@.len() ==> #[trigger] spec_data_frame(
                frames@[k],
                inject_options.width as int,
                inject_options.height as int,
                inject_options.size as int,
                AlgoFrame::BW,
                k as u64,
                data@,
            ),
{
    let width = inject_options.width;
    let height = inject_options.height;
    let size = inject_options.size;
    let ghost w = width as int;
    let ghost h = height as int;
    let ghost s = size as int;
    let ghost cap = bytes_per_frame_bw(w, h, s);
    proof {
        lemma_cell_count_bound(w, h, s);
        lemma_geometry_positive(w, h, s);
        lemma_capacity_positive(w, h, s, AlgoFrame::BW);
    }
    let total_cells: usize = (width as usize / size as usize) * (height as usize / size as usize);
    let total_data: usize = data.len();
    let mut frames: Vec<VideoFrame> = Vec::new();
    let mut data_index: usize = 0;
    let mut bit_index: u8 = 7;
    let mut page_number: u64 = 0;
    while data_index < total_data
        invariant
            grid_aligned(w, h, s),
            cell_count(w, h, s) > 64,
            cell_count(w, h, s) % 8 == 0,
            w == inject_options.width as int,
            h == inject_options.height as int,
            s == inject_options.size as int,
            width == inject_options.width,
            height == inject_options.height,
            size == inject_options.size,
            inject_options.width >= 1,
            inject_options.height >= 1,
            cap == bytes_per_frame_bw(w, h, s),
            cap >= 1,
            8 * cap == cell_count(w, h, s) - 64,
            total_cells == cell_count(w, h, s),
            total_data == data@.len(),
            total_data + cap <= usize::MAX,
            frames@.len() == page_number,
            page_number * cap == data_index,
            bit_index == 7,
            page_number >= 1 ==> (page_number - 1) * cap < total_data,
            page_number == 0 ==> data_index == 0,
            forall|k: int|
                0 <= k < page_number ==> #[trigger] spec_data_frame(
                    frames@[k],
                    w,
                    h,
                    s,
                    AlgoFrame::BW,
                    k as u64,
                    data@,
                ),
        decreases total_data + cap - data_index,
    {
        let ghost base = page_number * cap as int;
        let mut frame = VideoFrame::new(width, height);
        proof {
            lemma_start_cell_zero(w, h, s);
        }
        frame.write_pagination(0, 0, &page_number, size);
        let mut ci: usize = 64;
        while ci < total_cells
            invariant
                64 <= ci <= total_cells,
                frame.wf(),
                frame.width == width,
                frame.height == height,
                w == width as int,
                h == height as int,
                s == size as int,
                grid_aligned(w, h, s),
                total_cells == cell_count(w, h, s),
                cell_count(w, h, s) > 64,
                cap == bytes_per_frame_bw(w, h, s),
                cap >= 1,
                8 * cap == cell_count(w, h, s) - 64,
                total_data == data@.len(),
                total_data + cap <= usize::MAX,
                base == page_number * cap,
                base < total_data,
                data_index == base + (ci - 64) / 8,
                bit_index == 7 - ((ci - 64) % 8),
                forall|t: int|
                    0 <= t < 64 ==> #[trigger] cell_is(
                        frame.pixels@,
                        w,
                        s,
                        t,
                        bit_to_color(u64_bits_msb(page_number)[t]),
                    ),
                forall|j: int|
                    0 <= j < ci - 64 ==> #[trigger] cell_is(
                        frame.pixels@,
                        w,
                        s,
                        64 + j,
                        bw_content_color(data@, base, j),
                    ),
            decreases total_cells - ci,
        {
            proof {
                let j = ci as int - 64;
                lemma_fundamental_div_mod(j, 8);
                assert(j / 8 <= cap - 1) by {
                    assert(j <= 8 * cap - 1);
                    lemma_fundamental_div_mod_converse_div(8 * (cap - 1) + 7, 8, cap - 1, 7);
                    vstd::arithmetic::div_mod::lemma_div_is_ordered(j, 8 * (cap - 1) + 7, 8);
                }
            }
            let bit = if data_index < total_data {
                get_bit_at(data[data_index], bit_index)
            } else {
                get_bit_at(NULL_CHAR, bit_index)
            };
            let (r, g, b) = get_rgb_for_bit(bit);
            let ghost prev = frame;
            frame.write_cell(ci, Color { r, g, b }, size);
            proof {
                let j = ci as int - 64;
                assert(Color { r, g, b } == bw_content_color(data@, base, j));
                assert forall|t: int| 0 <= t < 64 implies #[trigger] cell_is(
                    frame.pixels@,
                    w,
                    s,
                    t,
                    bit_to_color(u64_bits_msb(page_number)[t]),
                ) by {
                    lemma_cell_is_preserved(
                        prev.pixels@,
                        frame.pixels@,
                        w,
                        h,
                        s,
                        ci as int,
                        t,
                        bit_to_color(u64_bits_msb(page_number)[t]),
                    );
                }
                assert forall|u: int| 0 <= u < j + 1 implies #[trigger] cell_is(
                    frame.pixels@,
                    w,
                    s,
                    64 + u,
                    bw_content_color(data@, base, u),
                ) by {
                    if u < j {
                        lemma_cell_is_preserved(
                            prev.pixels@,
                            frame.pixels@,
                            w,
                            h,
                            s,
                            ci as int,
                            64 + u,
                            bw_content_color(data@, base, u),
                        );
                    }
                }
                // Stepping to the next cell advances the bit position, and
                // once per byte the payload position.
                let q = j / 8;
                let rr = j % 8;
                if rr < 7 {
                    lemma_fundamental_div_mod_converse(j + 1, 8, q, rr + 1);
                } else {
                    lemma_fundamental_div_mod_converse(j + 1, 8, q + 1, 0);
                }
            }
            if bit_index > 0 {
                bit_index = bit_index - 1;
            } else {
                data_index = data_index + 1;
                bit_index = 7;
            }
            ci = ci + 1;
        }
        frames.push(frame);
        proof {
            lemma_fundamental_div_mod_converse_div(8 * cap, 8, cap, 0);
            assert(data_index == base + cap);
            assert(spec_data_frame(frame, w, h, s, AlgoFrame::BW, page_number, data@));
            assert((page_number + 1) * cap == page_number * cap + cap) by (nonlinear_arith);
            assert(page_number <= page_number * cap) by (nonlinear_arith)
                requires
                    cap >= 1 && page_number >= 0,
            ;
        }
        page_number = page_number + 1;
    }
    proof {
        lemma_frame_count_from_loop(total_data as int, cap, page_number as int);
    }
    frames
}

/// The width and height of a usable grid are at least one pixel, and the
/// first cell of a frame is cell zero.
proof fn lemma_geometry_positive(width: int, height: int, size: int)
    requires
        grid_aligned(width, height, size),
        cell_count(width, height, size) > 64,
    ensures
        width >= 1,
        height >= 1,
{
    let cpr = width / size;
    let rows = height / size;
    lemma_div_pos_is_pos(width, size);
    lemma_div_pos_is_pos(height, size);
    assert(cpr >= 1 && rows >= 1) by (nonlinear_arith)
        requires
            cpr >= 0 && rows >= 0 && cpr * rows > 64,
    ;
    lemma_fundamental_div_mod(width, size);
    lemma_fundamental_div_mod(height, size);
    assert(size * cpr >= 1 && size * rows >= 1) by (nonlinear_arith)
        requires
            size >= 1 && cpr >= 1 && rows >= 1,
    ;
}

/// The cell at the frame origin is cell zero.
proof fn lemma_start_cell_zero(width: int, height: int, size: int)
    requires
        grid_aligned(width, height, size),
    ensures
        cell_index_of(width, size, 0, 0) == 0,
{
    lemma_fundamental_div_mod_converse_div(0, size, 0, 0);
}

} // verus!
