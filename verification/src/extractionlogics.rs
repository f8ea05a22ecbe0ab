use vstd::prelude::*;

use crate::bitlogics::{byte_from_bits, get_bit_from_rgb, mutate_byte, sample_sum, u8_bit};
use crate::injectionextraction::Color;
use crate::instructionlogics::{bits_value, lemma_bits_value_bound, Instruction};
use crate::options::{AlgoFrame, ExtractOptions};
use crate::videoframe::{
    block_channel_sum, cell_average, cell_average_channel, cell_count, cell_origin_x,
    cell_origin_y, channel, grid_aligned, lemma_cell_count_bound, lemma_cell_origin_in_range,
    lemma_pixel_index_bound, row_channel_sum, VideoFrame,
};
use vstd::arithmetic::div_mod::{
    lemma_div_is_ordered, lemma_div_multiples_vanish, lemma_div_pos_is_pos,
    lemma_fundamental_div_mod, lemma_fundamental_div_mod_converse,
};
use vstd::arithmetic::power2::{lemma2_to64_rest, pow2};
use vstd::set_lib::lemma_len_subset;
use std::collections::HashMap;

verus! {

broadcast use vstd::std_specs::hash::group_hash_axioms;

/// The bit a cell's averaged color stands for: true when the channels sum to
/// at least half of the theoretical maximum of three channels.
pub open spec fn color_bit(c: Color) -> bool {
    c.r + c.g + c.b >= 382
}

/// The 64 header bits of a frame, read from its first 64 averaged cells.
pub open spec fn frame_header_bits(frame: VideoFrame, size: int) -> Seq<bool> {
    Seq::new(64, |i: int| color_bit(cell_average(frame.pixels@, frame.width as int, size, i)))
}

/// The value the frame's header carries.
pub open spec fn frame_header_value(frame: VideoFrame, size: int) -> u64 {
    bits_value(frame_header_bits(frame, size)) as u64
}

/// The bit a content cell carries in black-and-white mode.
pub open spec fn cell_bit(frame: VideoFrame, size: int, ci: int) -> bool {
    color_bit(cell_average(frame.pixels@, frame.width as int, size, ci))
}

/// The bytes a frame's content cells carry in RGB mode: three bytes per cell,
/// one per channel.
pub open spec fn frame_content_rgb(frame: VideoFrame, size: int) -> Seq<u8> {
    let n = cell_count(frame.width as int, frame.height as int, size);
    Seq::new(
        (3 * (n - 64)) as nat,
        |i: int| channel(cell_average(frame.pixels@, frame.width as int, size, 64 + i / 3), i % 3),
    )
}

/// The bytes a frame's content cells carry in black-and-white mode: eight
/// cells per byte, most significant bit first.
pub open spec fn frame_content_bw(frame: VideoFrame, size: int) -> Seq<u8> {
    let n = cell_count(frame.width as int, frame.height as int, size);
    Seq::new(
        (((n - 64)) / 8) as nat,
        |m: int| byte_from_bits(Seq::new(8, |t: int| cell_bit(frame, size, 64 + 8 * m + t))),
    )
}

/// The bytes a frame's content cells carry.
pub open spec fn frame_content(frame: VideoFrame, size: int, algo: AlgoFrame) -> Seq<u8> {
    if algo == AlgoFrame::RGB {
        frame_content_rgb(frame, size)
    } else {
        frame_content_bw(frame, size)
    }
}

/// Whether one averaged cell color is close enough to the reserved marker
/// color: red is (255, 0, 0), with some room for capture noise.
pub open spec fn reddish(rgb: Seq<u8>) -> bool {
    &&& rgb[0] >= 220
    &&& rgb[1] <= 30
    &&& rgb[2] <= 30
}

/// How many of the first `n` cell colors beyond the 64 header cells are
/// close to the marker color.
pub open spec fn red_count(list: Seq<Seq<u8>>, n: int) -> int
    decreases n,
{
    if n <= 64 {
        0
    } else {
        red_count(list, n - 1) + (if reddish(list[n - 1]) {
            1int
        } else {
            0int
        })
    }
}

/// Whether a list of averaged cell colors marks a sentinel frame: more than
/// nine tenths of the content cells are close to the marker color.
pub open spec fn spec_is_red_list(list: Seq<Seq<u8>>) -> bool {
    if list.len() <= 64 {
        false
    } else {
        10 * red_count(list, list.len() as int) > 9 * (list.len() - 64)
    }
}

/// The averaged cell colors of a frame, as channel triplets.
pub open spec fn frame_rgb_list(frame: VideoFrame, size: int) -> Seq<Seq<u8>> {
    Seq::new(
        cell_count(frame.width as int, frame.height as int, size) as nat,
        |i: int|
            {
                let c = cell_average(frame.pixels@, frame.width as int, size, i);
                seq![c.r, c.g, c.b]
            },
    )
}

/// Whether a frame is the sentinel.
pub open spec fn spec_frame_is_red(frame: VideoFrame, size: int) -> bool {
    spec_is_red_list(frame_rgb_list(frame, size))
}

/// The views of a list of channel triplets.
pub open spec fn rgb_views(list: Seq<Vec<u8>>) -> Seq<Seq<u8>> {
    list.map_values(|v: Vec<u8>| v@)
}

/// What one frame contributes to the decode run.
pub struct FrameBytesInfo {
    pub bytes: Vec<u8>,
    pub is_red_frame: bool,
    pub pagination_or_instruction: Option<Instruction>,
}

/// The two conditions that end a decode run without output.
#[derive(Debug, PartialEq, Eq, Structural, Clone, Copy)]
pub enum DecodeError {
    /// No sentinel frame was recognized, so the payload length is unknown.
    InstructionNotFound,
    /// A page is missing: the reassembled bytes fall short of the declared
    /// payload length.
    IncompleteTransfer,
}

/// Every channel average lies in byte range.
pub proof fn lemma_cell_average_channel_bounds(
    pixels: Seq<Color>,
    width: int,
    size: int,
    ci: int,
    k: int,
)
    requires
        size >= 1,
    ensures
        0 <= cell_average_channel(pixels, width, size, ci, k) <= 255,
{
    let x = cell_origin_x(width, size, ci);
    let y = cell_origin_y(width, size, ci);
    lemma_block_sum_bounds(pixels, width, x, y, size, size, k);
    assert(size * size >= 1) by (nonlinear_arith)
        requires
            size >= 1,
    ;
    lemma_div_pos_is_pos(block_channel_sum(pixels, width, x, y, size, size, k), size * size);
    lemma_div_is_ordered(
        block_channel_sum(pixels, width, x, y, size, size, k),
        255 * (size * size),
        size * size,
    );
    lemma_div_multiples_vanish(255, size * size);
}

/// Row and block channel sums stay within the range their pixel count allows.
pub proof fn lemma_row_sum_bounds(pixels: Seq<Color>, width: int, x: int, y: int, n: int, k: int)
    requires
        n >= 0,
    ensures
        0 <= row_channel_sum(pixels, width, x, y, n, k) <= 255 * n,
    decreases n,
{
    if n > 0 {
        lemma_row_sum_bounds(pixels, width, x, y, n - 1, k);
    }
}

pub proof fn lemma_block_sum_bounds(
    pixels: Seq<Color>,
    width: int,
    x: int,
    y: int,
    size: int,
    rows: int,
    k: int,
)
    requires
        rows >= 0,
        size >= 0,
    ensures
        0 <= block_channel_sum(pixels, width, x, y, size, rows, k) <= 255 * (rows * size),
    decreases rows,
{
    if rows > 0 {
        lemma_block_sum_bounds(pixels, width, x, y, size, rows - 1, k);
        lemma_row_sum_bounds(pixels, width, x, y + rows - 1, size, k);
        assert(255 * ((rows - 1) * size) + 255 * size == 255 * (rows * size)) by (nonlinear_arith);
    } else {
        assert(255 * (0 * size) == 0) by (nonlinear_arith);
    }
}

/// The sum of a three-sample sequence.
proof fn lemma_sample_sum3(s: Seq<u8>)
    requires
        s.len() == 3,
    ensures
        sample_sum(s) == s[0] + s[1] + s[2],
{
    let s0 = seq![s[0]];
    let s01 = seq![s[0], s[1]];
    assert(s0.drop_last() =~= Seq::<u8>::empty());
    assert(s01.drop_last() =~= s0);
    assert(s.drop_last() =~= s01);
    assert(sample_sum(Seq::<u8>::empty()) == 0);
    assert(sample_sum(s0) == s[0]);
    assert(sample_sum(s01) == s[0] + s[1]);
    assert(s.last() == s[2]);
    assert(sample_sum(s) == sample_sum(s01) + s[2]);
}

/// Extract a pixel value that might be spread over many sibling pixels to
/// reduce inaccuracy: the arithmetic mean of each channel over the whole
/// size-by-size block anchored at (x, y).
fn get_pixel(frame: &VideoFrame, x: u16, y: u16, size: u8) -> (rgb: Vec<u8>)
    requires
        frame.wf(),
        size >= 1,
        x + size <= frame.width,
        y + size <= frame.height,
    ensures
        rgb@.len() == 3,
        rgb@[0] == block_channel_sum(
            frame.pixels@,
            frame.width as int,
            x as int,
            y as int,
            size as int,
            size as int,
            0,
        ) / (size as int * size as int),
        rgb@[1] == block_channel_sum(
            frame.pixels@,
            frame.width as int,
            x as int,
            y as int,
            size as int,
            size as int,
            1,
        ) / (size as int * size as int),
        rgb@[2] == block_channel_sum(
            frame.pixels@,
            frame.width as int,
            x as int,
            y as int,
            size as int,
            size as int,
            2,
        ) / (size as int * size as int),
{
    let ghost w = frame.width as int;
    let ghost h = frame.height as int;
    let mut r_sum: u32 = 0;
    let mut g_sum: u32 = 0;
    let mut b_sum: u32 = 0;
    let mut i: usize = 0;
    while i < size as usize
        invariant
            i <= size,
            frame.wf(),
            w == frame.width as int,
            h == frame.height as int,
            size >= 1,
            x + size <= frame.width,
            y + size <= frame.height,
            r_sum == block_channel_sum(frame.pixels@, w, x as int, y as int, size as int, i as int, 0),
            g_sum == block_channel_sum(frame.pixels@, w, x as int, y as int, size as int, i as int, 1),
            b_sum == block_channel_sum(frame.pixels@, w, x as int, y as int, size as int, i as int, 2),
        decreases size - i,
    {
        let mut j: usize = 0;
        while j < size as usize
            invariant
                i < size,
                j <= size,
                frame.wf(),
                w == frame.width as int,
                h == frame.height as int,
                size >= 1,
                x + size <= frame.width,
                y + size <= frame.height,
                r_sum == block_channel_sum(frame.pixels@, w, x as int, y as int, size as int, i as int, 0)
                    + row_channel_sum(frame.pixels@, w, x as int, y as int + i, j as int, 0),
                g_sum == block_channel_sum(frame.pixels@, w, x as int, y as int, size as int, i as int, 1)
                    + row_channel_sum(frame.pixels@, w, x as int, y as int + i, j as int, 1),
                b_sum == block_channel_sum(frame.pixels@, w, x as int, y as int, size as int, i as int, 2)
                    + row_channel_sum(frame.pixels@, w, x as int, y as int + i, j as int, 2),
            decreases size - j,
        {
            proof {
                lemma_pixel_index_bound(w, h, x as int + j as int, y as int + i as int);
                assert(w * h <= 65535 * 65535) by (nonlinear_arith)
                    requires
                        0 <= w <= 65535 && 0 <= h <= 65535,
                ;
                lemma_block_sum_bounds(frame.pixels@, w, x as int, y as int, size as int, i as int, 0);
                lemma_block_sum_bounds(frame.pixels@, w, x as int, y as int, size as int, i as int, 1);
                lemma_block_sum_bounds(frame.pixels@, w, x as int, y as int, size as int, i as int, 2);
                lemma_row_sum_bounds(frame.pixels@, w, x as int, y as int + i, j as int, 0);
                lemma_row_sum_bounds(frame.pixels@, w, x as int, y as int + i, j as int, 1);
                lemma_row_sum_bounds(frame.pixels@, w, x as int, y as int + i, j as int, 2);
                assert(0 <= i as int * size as int <= 65025) by (nonlinear_arith)
                    requires
                        0 <= i <= 255 && 0 <= size <= 255,
                ;
                assert(255 * (i as int * size as int) <= 255 * 65025 && 255 * j as int <= 255 * 255)
                    by (nonlinear_arith)
                    requires
                        0 <= i as int * size as int <= 65025 && 0 <= j <= 255,
                ;
            }
            let idx: usize = (y as usize + i) * frame.width as usize + (x as usize + j);
            let pixel = frame.pixels[idx];
            r_sum = r_sum + pixel.r as u32;
            g_sum = g_sum + pixel.g as u32;
            b_sum = b_sum + pixel.b as u32;
            j = j + 1;
        }
        i = i + 1;
    }
    proof {
        assert(1 <= size as int * size as int <= 65025) by (nonlinear_arith)
            requires
                1 <= size <= 255,
        ;
        lemma_block_sum_bounds(frame.pixels@, w, x as int, y as int, size as int, size as int, 0);
        lemma_block_sum_bounds(frame.pixels@, w, x as int, y as int, size as int, size as int, 1);
        lemma_block_sum_bounds(frame.pixels@, w, x as int, y as int, size as int, size as int, 2);
        lemma_div_multiples_vanish(255, size as int * size as int);
        lemma_div_is_ordered(
            block_channel_sum(frame.pixels@, w, x as int, y as int, size as int, size as int, 0),
            255 * (size as int * size as int),
            size as int * size as int,
        );
        lemma_div_is_ordered(
            block_channel_sum(frame.pixels@, w, x as int, y as int, size as int, size as int, 1),
            255 * (size as int * size as int),
            size as int * size as int,
        );
        lemma_div_is_ordered(
            block_channel_sum(frame.pixels@, w, x as int, y as int, size as int, size as int, 2),
            255 * (size as int * size as int),
            size as int * size as int,
        );
        lemma_div_pos_is_pos(
            block_channel_sum(frame.pixels@, w, x as int, y as int, size as int, size as int, 0),
            size as int * size as int,
        );
        lemma_div_pos_is_pos(
            block_channel_sum(frame.pixels@, w, x as int, y as int, size as int, size as int, 1),
            size as int * size as int,
        );
        lemma_div_pos_is_pos(
            block_channel_sum(frame.pixels@, w, x as int, y as int, size as int, size as int, 2),
            size as int * size as int,
        );
    }
    let count: u32 = size as u32 * size as u32;
    let mut rgb_average: Vec<u8> = Vec::new();
    rgb_average.push((r_sum / count) as u8);
    rgb_average.push((g_sum / count) as u8);
    rgb_average.push((b_sum / count) as u8);
    rgb_average
}

/// Check if the cell colors beyond the header are almost all reddish.
/// The list should be the content of a single frame.
pub fn check_red_frame(list_rgbs: &Vec<Vec<u8>>) -> (is_red: bool)
    requires
        forall|i: int| 0 <= i < list_rgbs@.len() ==> list_rgbs@[i]@.len() >= 3,
    ensures
        is_red == spec_is_red_list(rgb_views(list_rgbs@)),
{
    let ghost views = rgb_views(list_rgbs@);
    let mut counter: usize = 0;
    let mut pos: usize = 0;
    while pos < list_rgbs.len()
        invariant
            pos <= list_rgbs@.len(),
            views == rgb_views(list_rgbs@),
            forall|i: int| 0 <= i < list_rgbs@.len() ==> list_rgbs@[i]@.len() >= 3,
            counter == red_count(views, pos as int),
            counter <= pos,
        decreases list_rgbs@.len() - pos,
    {
        if pos >= 64 {
            // First 64 are for instruction or pagination.
            // Red is 255, 0, 0 but we give some room.
            let rgb = &list_rgbs[pos];
            if rgb[0] >= 220 && rgb[1] <= 30 && rgb[2] <= 30 {
                counter = counter + 1;
            }
            proof {
                assert(views[pos as int] == list_rgbs@[pos as int]@);
                assert(reddish(views[pos as int]) == (list_rgbs@[pos as int]@[0] >= 220
                    && list_rgbs@[pos as int]@[1] <= 30 && list_rgbs@[pos as int]@[2] <= 30));
            }
        }
        pos = pos + 1;
    }
    if list_rgbs.len() <= 64 {
        false
    } else {
        let size_list: usize = list_rgbs.len() - 64;
        (counter as u128) * 10 > (size_list as u128) * 9
    }
}

/// Classify a frame from its averaged cell colors and record the header it
/// carries.
pub fn mutate_frame(frame: &mut FrameBytesInfo, rgbs: &Vec<Vec<u8>>, pagination_data: &Instruction)
    requires
        forall|i: int| 0 <= i < rgbs@.len() ==> rgbs@[i]@.len() >= 3,
    ensures
        final(frame).bytes == old(frame).bytes,
        final(frame).is_red_frame == spec_is_red_list(rgb_views(rgbs@)),
        final(frame).pagination_or_instruction == Some(*pagination_data),
{
    let is_red_frame = check_red_frame(rgbs);
    frame.is_red_frame = is_red_frame;
    frame.pagination_or_instruction = Some(*pagination_data);
}


/// Extract from a frame all the data, RGB mode: the 64 header bits, the
/// content bytes (three per cell), and whether the frame is the sentinel.
pub fn frame_to_data_method_rgb(source: &VideoFrame, options: &ExtractOptions) -> (result:
    FrameBytesInfo)
    requires
        source.wf(),
        source.width == options.width,
        source.height == options.height,
        grid_aligned(options.width as int, options.height as int, options.size as int),
        cell_count(options.width as int, options.height as int, options.size as int) >= 64,
    ensures
        result.bytes@ == frame_content_rgb(*source, options.size as int),
        result.is_red_frame == spec_frame_is_red(*source, options.size as int),
        result.pagination_or_instruction matches Some(instr) && instr@ == frame_header_bits(
            *source,
            options.size as int,
        ),
{
    let size = options.size;
    let ghost w = source.width as int;
    let ghost h = source.height as int;
    let ghost s = size as int;
    proof {
        lemma_cell_count_bound(w, h, s);
        lemma_div_pos_is_pos(w, s);
        lemma_div_pos_is_pos(h, s);
        assert(w / s >= 0 && h / s >= 0 && w / s * (h / s) >= 64 ==> w / s >= 1)
            by (nonlinear_arith);
    }
    let total_cells: usize = (source.width as usize / size as usize) * (source.height as usize
        / size as usize);
    let cpr: usize = source.width as usize / size as usize;
    let mut bytes: Vec<u8> = Vec::new();
    let mut rgbs: Vec<Vec<u8>> = Vec::new();
    let mut pagination_bits: [bool; 64] = [false;64];
    let mut ci: usize = 0;
    while ci < total_cells
        invariant
            ci <= total_cells,
            source.wf(),
            source.width == options.width,
            source.height == options.height,
            w == source.width as int,
            h == source.height as int,
            s == size as int,
            size == options.size,
            grid_aligned(w, h, s),
            total_cells == cell_count(w, h, s),
            total_cells >= 64,
            cpr == w / s,
            cpr >= 1,
            rgbs@.len() == ci,
            forall|t: int| 0 <= t < ci ==> #[trigger] rgbs@[t]@ == frame_rgb_list(*source, s)[t],
            forall|t: int| 0 <= t < ci ==> #[trigger] rgbs@[t]@.len() == 3,
            forall|t: int|
                0 <= t < 64 && t < ci ==> pagination_bits@[t] == frame_header_bits(*source, s)[t],
            bytes@.len() == (if ci <= 64 {
                0int
            } else {
                3 * (ci - 64)
            }),
            forall|idx: int|
                0 <= idx < bytes@.len() ==> bytes@[idx] == frame_content_rgb(*source, s)[idx],
        decreases total_cells - ci,
    {
        proof {
            lemma_cell_origin_in_range(w, h, s, ci as int);
        }
        let x: usize = (ci % cpr) * size as usize;
        let y: usize = (ci / cpr) * size as usize;
        let rgb = get_pixel(source, x as u16, y as u16, size);
        proof {
            assert(x as int == cell_origin_x(w, s, ci as int));
            assert(y as int == cell_origin_y(w, s, ci as int));
            lemma_cell_average_channel_bounds(source.pixels@, w, s, ci as int, 0);
            lemma_cell_average_channel_bounds(source.pixels@, w, s, ci as int, 1);
            lemma_cell_average_channel_bounds(source.pixels@, w, s, ci as int, 2);
            lemma_sample_sum3(rgb@);
        }
        let mut entry: Vec<u8> = Vec::new();
        entry.push(rgb[0]);
        entry.push(rgb[1]);
        entry.push(rgb[2]);
        rgbs.push(entry);
        proof {
            let c = cell_average(source.pixels@, w, s, ci as int);
            assert(entry@ =~= seq![c.r, c.g, c.b]);
            assert(rgbs@[ci as int]@ == frame_rgb_list(*source, s)[ci as int]);
        }
        let bit_value = get_bit_from_rgb(&rgb);
        if ci < 64 {
            pagination_bits[ci] = bit_value;
            proof {
                let c = cell_average(source.pixels@, w, s, ci as int);
                assert(pagination_bits@[ci as int] == color_bit(c));
            }
        } else {
            bytes.push(rgb[0]);
            bytes.push(rgb[1]);
            bytes.push(rgb[2]);
            proof {
                let j = ci as int - 64;
                lemma_fundamental_div_mod_converse(3 * j, 3, j, 0);
                lemma_fundamental_div_mod_converse(3 * j + 1, 3, j, 1);
                lemma_fundamental_div_mod_converse(3 * j + 2, 3, j, 2);
            }
        }
        ci = ci + 1;
    }
    let pagination_data = Instruction { relevant_byte_count_in_64bits: pagination_bits };
    let mut result = FrameBytesInfo { bytes, is_red_frame: false, pagination_or_instruction: None };
    mutate_frame(&mut result, &rgbs, &pagination_data);
    proof {
        assert(rgb_views(rgbs@) =~= frame_rgb_list(*source, s));
        assert(result.bytes@ =~= frame_content_rgb(*source, s));
        assert(pagination_data@ =~= frame_header_bits(*source, s));
    }
    result
}

/// Extract from a frame all the data, black-and-white mode: the 64 header
/// bits, the content bytes (eight cells per byte, most significant bit
/// first), and whether the frame is the sentinel.
pub fn frame_to_data_method_bw(source: &VideoFrame, options: &ExtractOptions) -> (result:
    FrameBytesInfo)
    requires
        source.wf(),
        source.width == options.width,
        source.height == options.height,
        grid_aligned(options.width as int, options.height as int, options.size as int),
        cell_count(options.width as int, options.height as int, options.size as int) >= 64,
    ensures
        result.bytes@ == frame_content_bw(*source, options.size as int),
        result.is_red_frame == spec_frame_is_red(*source, options.size as int),
        result.pagination_or_instruction matches Some(instr) && instr@ == frame_header_bits(
            *source,
            options.size as int,
        ),
{
    let size = options.size;
    let ghost w = source.width as int;
    let ghost h = source.height as int;
    let ghost s = size as int;
    proof {
        lemma_cell_count_bound(w, h, s);
        lemma_div_pos_is_pos(w, s);
        lemma_div_pos_is_pos(h, s);
        assert(w / s >= 0 && h / s >= 0 && w / s * (h / s) >= 64 ==> w / s >= 1)
            by (nonlinear_arith);
    }
    let total_cells: usize = (source.width as usize / size as usize) * (source.height as usize
        / size as usize);
    let cpr: usize = source.width as usize / size as usize;
    let mut bytes: Vec<u8> = Vec::new();
    let mut rgbs: Vec<Vec<u8>> = Vec::new();
    let mut pagination_bits: [bool; 64] = [false;64];
    let mut data: u8 = 0;
    let mut bit_index: u8 = 7;
    let mut ci: usize = 0;
    while ci < total_cells
        invariant
            ci <= total_cells,
            source.wf(),
            source.width == options.width,
            source.height == options.height,
            w == source.width as int,
            h == source.height as int,
            s == size as int,
            size == options.size,
            grid_aligned(w, h, s),
            total_cells == cell_count(w, h, s),
            total_cells >= 64,
            cpr == w / s,
            cpr >= 1,
            rgbs@.len() == ci,
            forall|t: int| 0 <= t < ci ==> #[trigger] rgbs@[t]@ == frame_rgb_list(*source, s)[t],
            forall|t: int| 0 <= t < ci ==> #[trigger] rgbs@[t]@.len() == 3,
            forall|t: int|
                0 <= t < 64 && t < ci ==> pagination_bits@[t] == frame_header_bits(*source, s)[t],
            bytes@.len() == (if ci <= 64 {
                0int
            } else {
                (ci - 64) / 8
            }),
            bit_index == (if ci <= 64 {
                7int
            } else {
                7 - ((ci - 64) % 8)
            }),
            ci <= 64 ==> data == 0,
            forall|t: int|
                0 <= t < (if ci <= 64 {
                    0int
                } else {
                    (ci - 64) % 8
                }) ==> #[trigger] u8_bit(data, (7 - t) as u8) == cell_bit(
                    *source,
                    s,
                    64 + 8 * ((ci - 64) / 8) + t,
                ),
            forall|m: int|
                0 <= m < bytes@.len() ==> bytes@[m] == frame_content_bw(*source, s)[m],
        decreases total_cells - ci,
    {
        proof {
            lemma_cell_origin_in_range(w, h, s, ci as int);
        }
        let x: usize = (ci % cpr) * size as usize;
        let y: usize = (ci / cpr) * size as usize;
        let rgb = get_pixel(source, x as u16, y as u16, size);
        proof {
            assert(x as int == cell_origin_x(w, s, ci as int));
            assert(y as int == cell_origin_y(w, s, ci as int));
            lemma_cell_average_channel_bounds(source.pixels@, w, s, ci as int, 0);
            lemma_cell_average_channel_bounds(source.pixels@, w, s, ci as int, 1);
            lemma_cell_average_channel_bounds(source.pixels@, w, s, ci as int, 2);
            lemma_sample_sum3(rgb@);
        }
        let mut entry: Vec<u8> = Vec::new();
        entry.push(rgb[0]);
        entry.push(rgb[1]);
        entry.push(rgb[2]);
        rgbs.push(entry);
        proof {
            let c = cell_average(source.pixels@, w, s, ci as int);
            assert(entry@ =~= seq![c.r, c.g, c.b]);
            assert(rgbs@[ci as int]@ == frame_rgb_list(*source, s)[ci as int]);
        }
        let bit_value = get_bit_from_rgb(&rgb);
        proof {
            let c = cell_average(source.pixels@, w, s, ci as int);
            assert(bit_value == color_bit(c));
        }
        if ci < 64 {
            pagination_bits[ci] = bit_value;
        } else {
            let ghost j = ci as int - 64;
            let ghost q = j / 8;
            let ghost rr = j % 8;
            proof {
                lemma_fundamental_div_mod(j, 8);
            }
            mutate_byte(&mut data, bit_value, bit_index);
            proof {
                assert(u8_bit(data, bit_index) == cell_bit(*source, s, ci as int));
                assert(64 + 8 * q + rr == ci as int);
            }
            if bit_index == 0 {
                proof {
                    assert(rr == 7);
                    let cell_bits = Seq::new(8, |t: int| cell_bit(*source, s, 64 + 8 * q + t));
                    let data_bits = Seq::new(8, |i: int| u8_bit(data, (7 - i) as u8));
                    assert forall|t: int| 0 <= t < 8 implies cell_bits[t] == data_bits[t] by {
                        assert(u8_bit(data, (7 - t) as u8) == cell_bit(*source, s, 64 + 8 * q + t));
                    }
                    assert(cell_bits =~= data_bits);
                    crate::bitlogics::lemma_byte_bits_round_trip(data);
                    assert(byte_from_bits(cell_bits) == data);
                    assert(frame_content_bw(*source, s)[q] == byte_from_bits(cell_bits));
                    lemma_fundamental_div_mod_converse(j + 1, 8, q + 1, 0);
                }
                bytes.push(data);
                data = 0;
            } else {
                proof {
                    assert(rr < 7);
                    lemma_fundamental_div_mod_converse(j + 1, 8, q, rr + 1);
                }
            }
            bit_index = if bit_index == 0 {
                7
            } else {
                bit_index - 1
            };
        }
        ci = ci + 1;
    }
    let pagination_data = Instruction { relevant_byte_count_in_64bits: pagination_bits };
    let mut result = FrameBytesInfo { bytes, is_red_frame: false, pagination_or_instruction: None };
    mutate_frame(&mut result, &rgbs, &pagination_data);
    proof {
        assert(rgb_views(rgbs@) =~= frame_rgb_list(*source, s));
        assert(result.bytes@ =~= frame_content_bw(*source, s));
        assert(pagination_data@ =~= frame_header_bits(*source, s));
    }
    result
}


/// The value carried by the first sentinel among the first `upto` frames.
pub open spec fn spec_first_sentinel(frames: Seq<VideoFrame>, size: int, upto: int) -> Option<u64>
    decreases upto,
{
    if upto <= 0 {
        None
    } else {
        match spec_first_sentinel(frames, size, upto - 1) {
            Some(v) => Some(v),
            None => if spec_frame_is_red(frames[upto - 1], size) {
                Some(frame_header_value(frames[upto - 1], size))
            } else {
                None
            },
        }
    }
}

/// The page map after processing the first `upto` frames: data frames insert
/// their content under their page number, and the first write wins.
pub open spec fn spec_page_map(
    frames: Seq<VideoFrame>,
    size: int,
    algo: AlgoFrame,
    upto: int,
) -> Map<u64, Seq<u8>>
    decreases upto,
{
    if upto <= 0 {
        Map::empty()
    } else {
        let m = spec_page_map(frames, size, algo, upto - 1);
        let f = frames[upto - 1];
        if spec_frame_is_red(f, size) {
            m
        } else {
            let p = frame_header_value(f, size);
            if m.contains_key(p) {
                m
            } else {
                m.insert(p, frame_content(f, size, algo))
            }
        }
    }
}

/// How many consecutive pages from zero are present, looking no further than
/// `n`.
pub open spec fn run_len_upto(m: Map<u64, Seq<u8>>, n: nat) -> nat
    decreases n,
{
    if n == 0 {
        0
    } else {
        let r = run_len_upto(m, (n - 1) as nat);
        if r == n - 1 && m.contains_key((n - 1) as u64) {
            n
        } else {
            r
        }
    }
}

/// The first missing page index: pages 0 up to it are present, and it is not.
pub open spec fn spec_first_gap(m: Map<u64, Seq<u8>>) -> nat {
    run_len_upto(m, m.dom().len())
}

/// The concatenation of the pages 0 to `n - 1`.
pub open spec fn spec_concat_run(m: Map<u64, Seq<u8>>, n: nat) -> Seq<u8>
    decreases n,
{
    if n == 0 {
        Seq::empty()
    } else {
        spec_concat_run(m, (n - 1) as nat) + m[(n - 1) as u64]
    }
}

/// What decoding a frame sequence yields: the payload, or the failure that
/// ends the run. The payload length comes from the first sentinel; the pages
/// are walked from zero to the first gap and the assembled bytes are cut to
/// the declared length, or the run fails when they fall short of it.
pub open spec fn spec_decode(frames: Seq<VideoFrame>, size: int, algo: AlgoFrame) -> Result<
    Seq<u8>,
    DecodeError,
> {
    match spec_first_sentinel(frames, size, frames.len() as int) {
        None => Err(DecodeError::InstructionNotFound),
        Some(byte_len) => {
            let m = spec_page_map(frames, size, algo, frames.len() as int);
            let assembled = spec_concat_run(m, spec_first_gap(m));
            if assembled.len() < byte_len {
                Err(DecodeError::IncompleteTransfer)
            } else {
                Ok(assembled.take(byte_len as int))
            }
        },
    }
}

/// The page map stays finite and holds at most one entry per frame.
pub proof fn lemma_page_map_finite(frames: Seq<VideoFrame>, size: int, algo: AlgoFrame, upto: int)
    requires
        upto <= frames.len(),
    ensures
        spec_page_map(frames, size, algo, upto).dom().finite(),
        spec_page_map(frames, size, algo, upto).dom().len() <= (if upto >= 0 {
            upto
        } else {
            0
        }),
    decreases (if upto >= 0 {
        upto
    } else {
        0
    }),
{
    if upto > 0 {
        lemma_page_map_finite(frames, size, algo, upto - 1);
    }
}

proof fn lemma_run_len_upto_props(m: Map<u64, Seq<u8>>, n: nat)
    requires
        n <= u64::MAX,
    ensures
        run_len_upto(m, n) <= n,
        forall|k: u64| k < run_len_upto(m, n) ==> #[trigger] m.contains_key(k),
        run_len_upto(m, n) < n ==> !m.contains_key(run_len_upto(m, n) as u64),
    decreases n,
{
    if n > 0 {
        lemma_run_len_upto_props(m, (n - 1) as nat);
    }
}

/// The set of the `n` smallest page indices.
pub open spec fn u64_range(n: u64) -> Set<u64> {
    Set::new(|k: u64| k < n)
}

pub proof fn lemma_u64_range_len(n: u64)
    ensures
        u64_range(n).finite(),
        u64_range(n).len() == n,
    decreases n,
{
    if n == 0 {
        assert(u64_range(0) =~= Set::<u64>::empty());
    } else {
        lemma_u64_range_len((n - 1) as u64);
        assert(u64_range(n) =~= u64_range((n - 1) as u64).insert((n - 1) as u64));
    }
}

/// The first gap is what its name says: every page below it is present and it
/// is absent itself.
pub proof fn lemma_first_gap_props(m: Map<u64, Seq<u8>>)
    requires
        m.dom().finite(),
        m.dom().len() <= u64::MAX,
    ensures
        spec_first_gap(m) <= m.dom().len(),
        forall|k: u64| k < spec_first_gap(m) ==> #[trigger] m.contains_key(k),
        !m.contains_key(spec_first_gap(m) as u64),
{
    lemma_run_len_upto_props(m, m.dom().len());
    let g = spec_first_gap(m);
    if g == m.dom().len() && m.contains_key(g as u64) {
        lemma_u64_range_len(g as u64);
        let gset = u64_range(g as u64).insert(g as u64);
        assert(!u64_range(g as u64).contains(g as u64));
        vstd::set::axiom_set_insert_len(u64_range(g as u64), g as u64);
        assert(gset <= m.dom()) by {
            assert forall|k: u64| gset.contains(k) implies m.dom().contains(k) by {
                if k < g {
                    assert(m.contains_key(k));
                }
            }
        }
        lemma_len_subset(gset, m.dom());
        assert(false);
    }
}

/// Any index with every page below it present and itself absent is the first
/// gap.
pub proof fn lemma_first_gap_unique(m: Map<u64, Seq<u8>>, n: nat)
    requires
        m.dom().finite(),
        m.dom().len() <= u64::MAX,
        n <= u64::MAX,
        forall|k: u64| k < n ==> #[trigger] m.contains_key(k),
        !m.contains_key(n as u64),
    ensures
        spec_first_gap(m) == n,
{
    lemma_first_gap_props(m);
    let g = spec_first_gap(m);
    if g < n {
        assert(m.contains_key(g as u64));
        assert(false);
    }
    if g > n {
        assert(m.contains_key(n as u64));
        assert(false);
    }
}

/// Take the pixels from a collection of frames into a collection of bytes,
/// reassembled in page order and cut to the length the sentinel declares.
///
/// The frames may arrive in any order, duplicated, or with frames missing;
/// a missing page or a missing sentinel ends the run with the matching error.
pub fn frames_to_data(extract_options: &ExtractOptions, frames: Vec<VideoFrame>) -> (result:
    Result<Vec<u8>, DecodeError>)
    requires
        grid_aligned(
            extract_options.width as int,
            extract_options.height as int,
            extract_options.size as int,
        ),
        cell_count(
            extract_options.width as int,
            extract_options.height as int,
            extract_options.size as int,
        ) >= 64,
        forall|i: int|
            0 <= i < frames@.len() ==> (#[trigger] frames@[i].wf() && frames@[i].width
                == extract_options.width && frames@[i].height == extract_options.height),
    ensures
        ({
            let decoded = spec_decode(frames@, extract_options.size as int, extract_options.algo);
            match result {
                Ok(bytes) => decoded is Ok && bytes@ == decoded->Ok_0,
                Err(e) => decoded is Err && e == decoded->Err_0,
            }
        }),
{
    let ghost s = extract_options.size as int;
    let ghost algo = extract_options.algo;
    let mut all_frames_bytes: HashMap<u64, Vec<u8>> = HashMap::new();
    let mut instruction: Option<Instruction> = None;
    let mut fi: usize = 0;
    while fi < frames.len()
        invariant
            fi <= frames@.len(),
            s == extract_options.size as int,
            algo == extract_options.algo,
            grid_aligned(extract_options.width as int, extract_options.height as int, s),
            cell_count(extract_options.width as int, extract_options.height as int, s) >= 64,
            forall|i: int|
                0 <= i < frames@.len() ==> (#[trigger] frames@[i].wf() && frames@[i].width
                    == extract_options.width && frames@[i].height == extract_options.height),
            instruction is Some <==> spec_first_sentinel(frames@, s, fi as int) is Some,
            instruction is Some ==> spec_first_sentinel(frames@, s, fi as int) == Some(
                bits_value(instruction->0@) as u64,
            ),
            all_frames_bytes@.dom() =~= spec_page_map(frames@, s, algo, fi as int).dom(),
            forall|p: u64|
                #[trigger] all_frames_bytes@.contains_key(p) ==> all_frames_bytes@[p]@
                    == spec_page_map(frames@, s, algo, fi as int)[p],
        decreases frames@.len() - fi,
    {
        let frame = &frames[fi];
        proof {
            assert(frames@[fi as int].wf());
        }
        let frame_data = if extract_options.algo == AlgoFrame::RGB {
            frame_to_data_method_rgb(frame, extract_options)
        } else {
            frame_to_data_method_bw(frame, extract_options)
        };
        proof {
            assert(frame_data.bytes@ == frame_content(frames@[fi as int], s, algo));
            assert(frame_data.is_red_frame == spec_frame_is_red(frames@[fi as int], s));
            lemma_bits_value_bound(frame_header_bits(frames@[fi as int], s));
            lemma2_to64_rest();
        }
        if frame_data.is_red_frame {
            // Record the instruction if it is not already known.
            if instruction.is_none() {
                let pagination_or_instruction = frame_data.pagination_or_instruction;
                instruction = match pagination_or_instruction {
                    Some(i) => Some(i),
                    None => vstd::pervasive::unreached(),
                };
            }
        } else {
            let page_instr = match frame_data.pagination_or_instruction {
                Some(i) => i,
                None => vstd::pervasive::unreached(),
            };
            let page_number = page_instr.get_data_size();
            proof {
                assert(page_number == frame_header_value(frames@[fi as int], s));
            }
            if !all_frames_bytes.contains_key(&page_number) {
                all_frames_bytes.insert(page_number, frame_data.bytes);
                proof {
                    assert(all_frames_bytes@.dom() =~= spec_page_map(
                        frames@,
                        s,
                        algo,
                        fi as int + 1,
                    ).dom());
                }
            }
        }
        fi = fi + 1;
    }
    let instruction_known = match instruction {
        Some(i) => i,
        None => {
            return Err(DecodeError::InstructionNotFound);
        },
    };
    let ghost page_map = spec_page_map(frames@, s, algo, frames@.len() as int);
    let total_frame_count = frames.len();
    proof {
        lemma_page_map_finite(frames@, s, algo, frames@.len() as int);
        assert(page_map.dom().len() <= total_frame_count);
        lemma_first_gap_props(page_map);
    }
    // Merge all pages in order, up to the first index that never arrived.
    let mut byte_data: Vec<u8> = Vec::new();
    let mut frame_index: u64 = 0;
    while all_frames_bytes.contains_key(&frame_index)
        invariant
            all_frames_bytes@.dom() =~= page_map.dom(),
            forall|p: u64|
                #[trigger] all_frames_bytes@.contains_key(p) ==> all_frames_bytes@[p]@
                    == page_map[p],
            page_map.dom().finite(),
            page_map.dom().len() <= usize::MAX,
            frame_index <= page_map.dom().len(),
            forall|k: u64| k < frame_index ==> #[trigger] page_map.contains_key(k),
            byte_data@ == spec_concat_run(page_map, frame_index as nat),
        decreases page_map.dom().len() - frame_index,
    {
        let page = match all_frames_bytes.get(&frame_index) {
            Some(p) => p,
            None => vstd::pervasive::unreached(),
        };
        let ghost before = byte_data@;
        let mut pj: usize = 0;
        while pj < page.len()
            invariant
                pj <= page@.len(),
                byte_data@ == before + page@.take(pj as int),
            decreases page@.len() - pj,
        {
            byte_data.push(page[pj]);
            proof {
                assert(before + page@.take(pj as int + 1) =~= (before + page@.take(pj as int)).push(
                    page@[pj as int],
                ));
            }
            pj = pj + 1;
        }
        proof {
            assert(page@.take(page@.len() as int) =~= page@);
            assert(byte_data@ == spec_concat_run(page_map, (frame_index + 1) as nat));
            // The pages 0 to frame_index are all present, so the count of
            // distinct pages bounds the walk.
            lemma_u64_range_len(frame_index);
            let fset = u64_range(frame_index).insert(frame_index);
            assert(!u64_range(frame_index).contains(frame_index));
            vstd::set::axiom_set_insert_len(u64_range(frame_index), frame_index);
            assert(page_map.dom().contains(frame_index));
            assert(fset <= page_map.dom()) by {
                assert forall|k: u64| fset.contains(k) implies page_map.dom().contains(k) by {
                    if k < frame_index {
                        assert(page_map.contains_key(k));
                    }
                }
            }
            lemma_len_subset(fset, page_map.dom());
        }
        frame_index = frame_index + 1;
    }
    proof {
        lemma_first_gap_unique(page_map, frame_index as nat);
    }
    let instr_data_bytes = instruction_known.get_data_size();
    // We might have fewer bytes if a frame never reached this machine: the
    // transfer is incomplete and the run fails.
    if (byte_data.len() as u64) < instr_data_bytes {
        return Err(DecodeError::IncompleteTransfer);
    }
    // Return only the number of bytes the instruction declares: the last
    // frame may have carried null filler beyond them.
    byte_data.truncate(instr_data_bytes as usize);
    Ok(byte_data)
}

} // verus!
