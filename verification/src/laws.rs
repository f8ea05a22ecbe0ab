use vstd::prelude::*;

use crate::bitlogics::lemma_byte_bits_round_trip;
use crate::extractionlogics::{
    cell_bit, color_bit, frame_content, frame_content_bw, frame_content_rgb, frame_header_bits,
    frame_header_value, frame_rgb_list, lemma_first_gap_unique, lemma_page_map_finite,
    lemma_u64_range_len, red_count, spec_concat_run, spec_decode, spec_first_sentinel,
    spec_frame_is_red, spec_page_map, u64_range, DecodeError,
};
use crate::injectionextraction::{bit_to_color, Color};
use crate::injectionlogics::{
    bw_content_color, bytes_per_frame, data_frame_cell_color, frame_dims_ok, lemma_capacity_positive,
    page_byte, rgb_content_color, spec_data_frame, spec_frame_count, spec_sentinel_frame,
    valid_geometry,
};
use crate::options::AlgoFrame;
use crate::instructionlogics::{lemma_header_round_trip, u64_bits_msb};
use crate::videoframe::{
    cell_average, cell_count, cell_is, grid_aligned, lemma_cell_average_uniform, VideoFrame,
};
use vstd::arithmetic::div_mod::{
    lemma_div_pos_is_pos, lemma_fundamental_div_mod, lemma_fundamental_div_mod_converse,
    lemma_mod_pos_bound,
};

verus! {

/// The payload bytes that page `base / capacity` carries: `capacity` bytes
/// starting at `base`, padded with the null byte past the payload's end.
pub open spec fn page_bytes(data: Seq<u8>, base: int, capacity: int) -> Seq<u8> {
    Seq::new(capacity as nat, |i: int| page_byte(data, base + i))
}

/// A cell written as the color of a bit reads back as that bit.
proof fn lemma_uniform_cell_bit(frame: VideoFrame, height: int, size: int, ci: int, b: bool)
    requires
        grid_aligned(frame.width as int, height, size),
        frame.height == height,
        0 <= ci < cell_count(frame.width as int, height, size),
        cell_is(frame.pixels@, frame.width as int, size, ci, bit_to_color(b)),
    ensures
        color_bit(cell_average(frame.pixels@, frame.width as int, size, ci)) == b,
{
    lemma_cell_average_uniform(frame.pixels@, frame.width as int, height, size, ci, bit_to_color(b));
}

/// A correctly encoded data frame decodes to its page number and to exactly
/// the payload slice it was written with.
pub proof fn lemma_decode_data_frame(
    frame: VideoFrame,
    width: int,
    height: int,
    size: int,
    algo: crate::options::AlgoFrame,
    page: u64,
    data: Seq<u8>,
)
    requires
        valid_geometry(width, height, size, algo),
        spec_data_frame(frame, width, height, size, algo, page, data),
    ensures
        frame_header_value(frame, size) == page,
        frame_content(frame, size, algo) == page_bytes(
            data,
            page * bytes_per_frame(width, height, size, algo),
            bytes_per_frame(width, height, size, algo),
        ),
{
    let n = cell_count(width, height, size);
    let cap = bytes_per_frame(width, height, size, algo);
    let base = page * cap;
    lemma_decode_header(frame, width, height, size, u64_bits_msb(page));
    lemma_header_round_trip(page);
    assert(frame_header_value(frame, size) == page);
    if algo == crate::options::AlgoFrame::RGB {
        assert forall|i: int| 0 <= i < 3 * (n - 64) implies frame_content_rgb(frame, size)[i]
            == page_byte(data, base + i) by {
            let j = i / 3;
            let k = i % 3;
            vstd::arithmetic::div_mod::lemma_fundamental_div_mod(i, 3);
            assert(cell_is(
                frame.pixels@,
                width,
                size,
                64 + j,
                data_frame_cell_color(data, width, height, size, algo, page, j),
            ));
            lemma_cell_average_uniform(
                frame.pixels@,
                width,
                height,
                size,
                64 + j,
                rgb_content_color(data, base, j),
            );
            assert(base + 3 * j + k == base + i);
        }
        assert(frame_content_rgb(frame, size) =~= page_bytes(data, base, cap));
    } else {
        crate::injectionlogics::lemma_capacity_positive(width, height, size, algo);
        assert forall|m: int| 0 <= m < (n - 64) / 8 implies frame_content_bw(frame, size)[m]
            == page_byte(data, base + m) by {
            let byte = page_byte(data, base + m);
            assert forall|t: int| 0 <= t < 8 implies #[trigger] cell_bit(frame, size, 64 + 8 * m + t)
                == crate::bitlogics::u8_bit(byte, (7 - t) as u8) by {
                let j = 8 * m + t;
                assert(cell_is(
                    frame.pixels@,
                    width,
                    size,
                    64 + j,
                    data_frame_cell_color(data, width, height, size, algo, page, j),
                ));
                lemma_cell_average_uniform(
                    frame.pixels@,
                    width,
                    height,
                    size,
                    64 + j,
                    bw_content_color(data, base, j),
                );
                lemma_fundamental_div_mod_converse(j, 8, m, t);
                assert(bw_content_color(data, base, j) == bit_to_color(
                    crate::bitlogics::u8_bit(byte, (7 - t) as u8),
                ));
                if crate::bitlogics::u8_bit(byte, (7 - t) as u8) {
                    assert(color_bit(Color { r: 255, g: 255, b: 255 }));
                } else {
                    assert(!color_bit(Color { r: 0, g: 0, b: 0 }));
                }
            }
            assert(Seq::new(8, |t: int| cell_bit(frame, size, 64 + 8 * m + t)) =~= Seq::new(
                8,
                |t: int| crate::bitlogics::u8_bit(byte, (7 - t) as u8),
            ));
            lemma_byte_bits_round_trip(byte);
        }
        assert(frame_content_bw(frame, size) =~= page_bytes(data, base, cap));
    }
}

/// The 64 header cells of a frame written with given bits read back as those
/// bits.
proof fn lemma_decode_header(frame: VideoFrame, width: int, height: int, size: int, bits: Seq<bool>)
    requires
        grid_aligned(width, height, size),
        cell_count(width, height, size) >= 64,
        frame_dims_ok(frame, width, height),
        bits.len() == 64,
        forall|t: int|
            0 <= t < 64 ==> #[trigger] cell_is(frame.pixels@, width, size, t, bit_to_color(bits[t])),
    ensures
        frame_header_bits(frame, size) == bits,
{
    assert forall|t: int| 0 <= t < 64 implies frame_header_bits(frame, size)[t] == bits[t] by {
        lemma_uniform_cell_bit(frame, height, size, t, bits[t]);
    }
    assert(frame_header_bits(frame, size) =~= bits);
}

/// A list whose content entries are all reddish counts them all.
proof fn lemma_red_count_all(list: Seq<Seq<u8>>, n: int)
    requires
        n >= 64,
        forall|i: int| 64 <= i < n ==> crate::extractionlogics::reddish(#[trigger] list[i]),
    ensures
        red_count(list, n) == n - 64,
    decreases n,
{
    if n > 64 {
        lemma_red_count_all(list, n - 1);
    }
}

/// A list with no reddish content entry counts none.
proof fn lemma_red_count_none(list: Seq<Seq<u8>>, n: int)
    requires
        forall|i: int| 64 <= i < n ==> !crate::extractionlogics::reddish(#[trigger] list[i]),
    ensures
        red_count(list, n) == 0,
    decreases n,
{
    if n > 64 {
        lemma_red_count_none(list, n - 1);
    }
}

/// A correctly encoded sentinel frame is recognized as the sentinel and
/// decodes to the payload length it was written with.
pub proof fn lemma_decode_sentinel_frame(
    frame: VideoFrame,
    width: int,
    height: int,
    size: int,
    byte_len: u64,
)
    requires
        grid_aligned(width, height, size),
        cell_count(width, height, size) > 64,
        spec_sentinel_frame(frame, width, height, size, byte_len),
    ensures
        spec_frame_is_red(frame, size),
        frame_header_value(frame, size) == byte_len,
{
    let n = cell_count(width, height, size);
    lemma_decode_header(frame, width, height, size, u64_bits_msb(byte_len));
    lemma_header_round_trip(byte_len);
    let list = frame_rgb_list(frame, size);
    assert forall|i: int| 64 <= i < n implies crate::extractionlogics::reddish(
        #[trigger] list[i],
    ) by {
        let j = i - 64;
        assert(cell_is(frame.pixels@, width, size, 64 + j, Color { r: 255, g: 0, b: 0 }));
        lemma_cell_average_uniform(
            frame.pixels@,
            width,
            height,
            size,
            64 + j,
            Color { r: 255, g: 0, b: 0 },
        );
    }
    lemma_red_count_all(list, n);
}

/// A data frame written in black-and-white mode is never taken for the
/// sentinel: its content cells are black or white, never close to the marker
/// color.
pub proof fn lemma_bw_data_frame_not_red(
    frame: VideoFrame,
    width: int,
    height: int,
    size: int,
    page: u64,
    data: Seq<u8>,
)
    requires
        valid_geometry(width, height, size, crate::options::AlgoFrame::BW),
        spec_data_frame(frame, width, height, size, crate::options::AlgoFrame::BW, page, data),
    ensures
        !spec_frame_is_red(frame, size),
{
    let n = cell_count(width, height, size);
    let list = frame_rgb_list(frame, size);
    let base = page * bytes_per_frame(width, height, size, crate::options::AlgoFrame::BW);
    assert forall|i: int| 64 <= i < n implies !crate::extractionlogics::reddish(
        #[trigger] list[i],
    ) by {
        let j = i - 64;
        assert(cell_is(
            frame.pixels@,
            width,
            size,
            64 + j,
            data_frame_cell_color(data, width, height, size, crate::options::AlgoFrame::BW, page, j),
        ));
        lemma_cell_average_uniform(
            frame.pixels@,
            width,
            height,
            size,
            64 + j,
            bw_content_color(data, base, j),
        );
    }
    lemma_red_count_none(list, n);
}

/// The first sentinel found in any prefix stands for the whole prefix.
proof fn lemma_first_sentinel_from_head(frames: Seq<VideoFrame>, size: int, upto: int)
    requires
        1 <= upto <= frames.len(),
        spec_frame_is_red(frames[0], size),
    ensures
        spec_first_sentinel(frames, size, upto) == Some(frame_header_value(frames[0], size)),
    decreases upto,
{
    if upto > 1 {
        lemma_first_sentinel_from_head(frames, size, upto - 1);
    } else {
        assert(spec_first_sentinel(frames, size, 0) is None);
        assert(spec_first_sentinel(frames, size, 1) == Some(
            frame_header_value(frames[0], size),
        ));
    }
}

/// A sequence with no sentinel yields none.
proof fn lemma_first_sentinel_none(frames: Seq<VideoFrame>, size: int, upto: int)
    requires
        upto <= frames.len(),
        forall|i: int| 0 <= i < upto ==> !spec_frame_is_red(#[trigger] frames[i], size),
    ensures
        spec_first_sentinel(frames, size, upto) is None,
    decreases upto,
{
    if upto > 0 {
        lemma_first_sentinel_none(frames, size, upto - 1);
    }
}

/// Removing the sentinel frame makes decoding fail for want of the payload
/// length: without a recognized sentinel no output is produced.
pub proof fn lemma_missing_sentinel_fatal(
    frames: Seq<VideoFrame>,
    size: int,
    algo: crate::options::AlgoFrame,
)
    requires
        forall|i: int| 0 <= i < frames.len() ==> !spec_frame_is_red(#[trigger] frames[i], size),
    ensures
        spec_decode(frames, size, algo) == Err::<Seq<u8>, DecodeError>(
            DecodeError::InstructionNotFound,
        ),
{
    lemma_first_sentinel_none(frames, size, frames.len() as int);
}


/// How many frames the encoder produces, bounded by the payload length.
proof fn lemma_frame_count_bounds(total: int, cap: int)
    requires
        total >= 0,
        cap >= 1,
    ensures
        spec_frame_count(total, cap) >= 0,
        spec_frame_count(total, cap) <= total,
        spec_frame_count(total, cap) * cap >= total,
        total == 0 ==> spec_frame_count(total, cap) == 0,
        total >= 1 ==> spec_frame_count(total, cap) >= 1,
        total >= 1 ==> (spec_frame_count(total, cap) - 1) * cap < total,
{
    let n = spec_frame_count(total, cap);
    lemma_fundamental_div_mod(total + cap - 1, cap);
    lemma_mod_pos_bound(total + cap - 1, cap);
    lemma_div_pos_is_pos(total + cap - 1, cap);
    let r = (total + cap - 1) % cap;
    assert(total + cap - 1 == cap * n + r);
    assert(n * cap == cap * n) by (nonlinear_arith);
    assert((n - 1) * cap == n * cap - cap) by (nonlinear_arith);
    if total >= 1 && n == 0 {
        assert(cap * n == 0) by (nonlinear_arith)
            requires
                n == 0,
        ;
        assert(false);
    }
    if n > total {
        assert(n >= total + 1);
        assert(n * cap >= n) by (nonlinear_arith)
            requires
                cap >= 1 && n >= 0,
        ;
        if total == 0 {
            assert(cap * n + r == cap - 1);
            assert(cap * n >= cap) by (nonlinear_arith)
                requires
                    cap >= 1 && n >= 1,
            ;
            assert(false);
        } else {
            assert((n - 1) * cap >= n - 1) by (nonlinear_arith)
                requires
                    cap >= 1 && n >= 1,
            ;
            assert(false);
        }
    }
}

/// The page map of a correctly encoded sequence holds exactly the pages
/// written so far, each with its slice of the payload.
proof fn lemma_page_map_encoded(
    sentinel: VideoFrame,
    pages: Seq<VideoFrame>,
    data: Seq<u8>,
    width: int,
    height: int,
    size: int,
    algo: AlgoFrame,
    upto: int,
)
    requires
        valid_geometry(width, height, size, algo),
        spec_frame_is_red(sentinel, size),
        pages.len() <= u64::MAX,
        forall|k: int|
            0 <= k < pages.len() ==> spec_data_frame(
                #[trigger] pages[k],
                width,
                height,
                size,
                algo,
                k as u64,
                data,
            ),
        forall|k: int| 0 <= k < pages.len() ==> !spec_frame_is_red(#[trigger] pages[k], size),
        1 <= upto <= pages.len() + 1,
    ensures
        spec_page_map(seq![sentinel] + pages, size, algo, upto).dom() =~= u64_range(
            (upto - 1) as u64,
        ),
        forall|k: u64|
            k < upto - 1 ==> #[trigger] spec_page_map(seq![sentinel] + pages, size, algo, upto)[k]
                == page_bytes(
                data,
                k * bytes_per_frame(width, height, size, algo),
                bytes_per_frame(width, height, size, algo),
            ),
    decreases upto,
{
    let f = seq![sentinel] + pages;
    if upto == 1 {
        assert(f[0] == sentinel);
        assert(spec_page_map(f, size, algo, 0) == Map::<u64, Seq<u8>>::empty());
        assert(spec_page_map(f, size, algo, 1) == Map::<u64, Seq<u8>>::empty());
        assert(spec_page_map(f, size, algo, 1).dom() =~= u64_range(0));
    } else {
        lemma_page_map_encoded(sentinel, pages, data, width, height, size, algo, upto - 1);
        let k = upto - 2;
        assert(f[upto - 1] == pages[k]);
        lemma_decode_data_frame(pages[k], width, height, size, algo, k as u64, data);
        let prev = spec_page_map(f, size, algo, upto - 1);
        assert(!prev.contains_key(k as u64));
        assert(spec_page_map(f, size, algo, upto) == prev.insert(
            k as u64,
            frame_content(pages[k], size, algo),
        ));
        assert(spec_page_map(f, size, algo, upto).dom() =~= u64_range((upto - 1) as u64));
    }
}

/// Concatenating the pages of an encoded map in order rebuilds the padded
/// payload stream.
proof fn lemma_concat_encoded(m: Map<u64, Seq<u8>>, data: Seq<u8>, cap: int, n: int)
    requires
        cap >= 0,
        0 <= n <= u64::MAX,
        forall|k: u64|
            k < n ==> #[trigger] m[k] == page_bytes(data, k * cap, cap),
    ensures
        spec_concat_run(m, n as nat) == page_bytes(data, 0, n * cap),
    decreases n,
{
    if n == 0 {
        assert(0 * cap == 0) by (nonlinear_arith);
        assert(spec_concat_run(m, 0) =~= page_bytes(data, 0, 0 * cap));
    } else {
        lemma_concat_encoded(m, data, cap, n - 1);
        assert(m[(n - 1) as u64] == page_bytes(data, (n - 1) * cap, cap));
        assert((n - 1) * cap + cap == n * cap) by (nonlinear_arith);
        assert((n - 1) * cap >= 0) by (nonlinear_arith)
            requires
                n >= 1 && cap >= 0,
        ;
        assert(spec_concat_run(m, n as nat) == spec_concat_run(m, (n - 1) as nat) + m[(n
            - 1) as u64]);
        assert(spec_concat_run(m, n as nat) =~= page_bytes(data, 0, n * cap));
    }
}

/// Round trip: encoding any payload under a valid geometry and mode, and
/// decoding the sentinel followed by the data frames in order, returns
/// exactly the original bytes. The hypothesis that no data frame passes for
/// the sentinel holds of every black-and-white encoding; in RGB mode a
/// payload made almost entirely of marker-colored triplets can defeat it.
pub proof fn lemma_round_trip(
    sentinel: VideoFrame,
    pages: Seq<VideoFrame>,
    data: Seq<u8>,
    width: int,
    height: int,
    size: int,
    algo: AlgoFrame,
)
    requires
        valid_geometry(width, height, size, algo),
        data.len() <= u64::MAX,
        spec_sentinel_frame(sentinel, width, height, size, data.len() as u64),
        pages.len() == spec_frame_count(
            data.len() as int,
            bytes_per_frame(width, height, size, algo),
        ),
        forall|k: int|
            0 <= k < pages.len() ==> spec_data_frame(
                #[trigger] pages[k],
                width,
                height,
                size,
                algo,
                k as u64,
                data,
            ),
        forall|k: int| 0 <= k < pages.len() ==> !spec_frame_is_red(#[trigger] pages[k], size),
    ensures
        spec_decode(seq![sentinel] + pages, size, algo) == Ok::<Seq<u8>, DecodeError>(data),
{
    let f = seq![sentinel] + pages;
    let cap = bytes_per_frame(width, height, size, algo);
    let total = data.len() as int;
    let nn = pages.len() as int;
    lemma_capacity_positive(width, height, size, algo);
    lemma_frame_count_bounds(total, cap);
    lemma_decode_sentinel_frame(sentinel, width, height, size, data.len() as u64);
    assert(f[0] == sentinel);
    lemma_first_sentinel_from_head(f, size, f.len() as int);
    lemma_page_map_encoded(sentinel, pages, data, width, height, size, algo, f.len() as int);
    let m = spec_page_map(f, size, algo, f.len() as int);
    lemma_page_map_finite(f, size, algo, f.len() as int);
    lemma_u64_range_len(nn as u64);
    assert(m.dom().len() == nn);
    lemma_first_gap_unique(m, nn as nat);
    lemma_concat_encoded(m, data, cap, nn);
    let assembled = spec_concat_run(m, nn as nat);
    assert(assembled.len() == nn * cap);
    assert(nn * cap >= 0) by (nonlinear_arith)
        requires
            nn >= 0 && cap >= 0,
    ;
    assert(assembled.take(total) =~= data);
}

/// Removing exactly one data frame from a correctly encoded sequence makes
/// decoding fail: a gap in the pages is never papered over.
pub proof fn lemma_missing_page_fatal(
    sentinel: VideoFrame,
    pages: Seq<VideoFrame>,
    data: Seq<u8>,
    width: int,
    height: int,
    size: int,
    algo: AlgoFrame,
    d: int,
)
    requires
        valid_geometry(width, height, size, algo),
        data.len() <= u64::MAX,
        spec_sentinel_frame(sentinel, width, height, size, data.len() as u64),
        pages.len() == spec_frame_count(
            data.len() as int,
            bytes_per_frame(width, height, size, algo),
        ),
        forall|k: int|
            0 <= k < pages.len() ==> spec_data_frame(
                #[trigger] pages[k],
                width,
                height,
                size,
                algo,
                k as u64,
                data,
            ),
        forall|k: int| 0 <= k < pages.len() ==> !spec_frame_is_red(#[trigger] pages[k], size),
        0 <= d < pages.len(),
    ensures
        spec_decode(seq![sentinel] + pages.remove(d), size, algo) == Err::<Seq<u8>, DecodeError>(
            DecodeError::IncompleteTransfer,
        ),
{
    let removed = pages.remove(d);
    let f = seq![sentinel] + removed;
    let cap = bytes_per_frame(width, height, size, algo);
    let total = data.len() as int;
    let nn = pages.len() as int;
    lemma_capacity_positive(width, height, size, algo);
    lemma_frame_count_bounds(total, cap);
    pages.remove_ensures(d);
    lemma_decode_sentinel_frame(sentinel, width, height, size, data.len() as u64);
    assert(f[0] == sentinel);
    lemma_first_sentinel_from_head(f, size, f.len() as int);
    // Each remaining data frame still carries its own original page number.
    assert forall|i: int| 1 <= i < f.len() implies (!spec_frame_is_red(#[trigger] f[i], size)
        && frame_header_value(f[i], size) == spec_removed_page(d, i - 1) && frame_content(
        f[i],
        size,
        algo,
    ) == page_bytes(data, spec_removed_page(d, i - 1) * cap, cap)) by {
        let k = spec_removed_page(d, i - 1);
        assert(f[i] == pages[k as int]);
        lemma_decode_data_frame(pages[k as int], width, height, size, algo, k, data);
    }
    lemma_page_map_removed(f, data, cap, size, algo, d, nn, f.len() as int);
    let m = spec_page_map(f, size, algo, f.len() as int);
    lemma_page_map_finite(f, size, algo, f.len() as int);
    lemma_first_gap_unique(m, d as nat);
    lemma_concat_encoded(m, data, cap, d);
    let assembled = spec_concat_run(m, d as nat);
    assert(assembled.len() == d * cap);
    // The assembled bytes stop short of the declared length.
    assert(d * cap <= (nn - 1) * cap) by (nonlinear_arith)
        requires
            d <= nn - 1 && cap >= 0,
    ;
    assert(total >= 1);
    assert((nn - 1) * cap < total);
}

/// The page number an index of the shortened sequence stands for, once the
/// frame of page `d` is removed.
pub open spec fn spec_removed_page(d: int, j: int) -> u64 {
    if j < d {
        j as u64
    } else {
        (j + 1) as u64
    }
}

/// The page map of an encoded sequence with page `d` removed: every page but
/// `d`, each with its payload slice.
proof fn lemma_page_map_removed(
    f: Seq<VideoFrame>,
    data: Seq<u8>,
    cap: int,
    size: int,
    algo: AlgoFrame,
    d: int,
    nn: int,
    upto: int,
)
    requires
        0 <= d < nn <= u64::MAX,
        f.len() == nn,
        spec_frame_is_red(f[0], size),
        cap == 0 || cap >= 1,
        forall|i: int|
            1 <= i < f.len() ==> (!spec_frame_is_red(#[trigger] f[i], size) && frame_header_value(
                f[i],
                size,
            ) == spec_removed_page(d, i - 1) && frame_content(f[i], size, algo) == page_bytes(
                data,
                spec_removed_page(d, i - 1) * cap,
                cap,
            )),
        1 <= upto <= f.len(),
    ensures
        forall|p: u64|
            #[trigger] spec_page_map(f, size, algo, upto).contains_key(p) <==> (p != d && p < (if (
            upto - 1) < d {
                upto - 1
            } else {
                upto
            })),
        forall|p: u64|
            spec_page_map(f, size, algo, upto).contains_key(p)
                ==> #[trigger] spec_page_map(f, size, algo, upto)[p] == page_bytes(
                data,
                p * cap,
                cap,
            ),
    decreases upto,
{
    if upto > 1 {
        lemma_page_map_removed(f, data, cap, size, algo, d, nn, upto - 1);
        let prev = spec_page_map(f, size, algo, upto - 1);
        let k = spec_removed_page(d, upto - 2);
        assert(!spec_frame_is_red(f[upto - 1], size) && frame_header_value(f[upto - 1], size) == k
            && frame_content(f[upto - 1], size, algo) == page_bytes(data, k * cap, cap));
        assert(!prev.contains_key(k));
        assert(spec_page_map(f, size, algo, upto) == prev.insert(
            k,
            frame_content(f[upto - 1], size, algo),
        ));
    } else {
        assert(spec_page_map(f, size, algo, 0) == Map::<u64, Seq<u8>>::empty());
        assert(spec_page_map(f, size, algo, 1) == Map::<u64, Seq<u8>>::empty());
    }
}


/// The first sentinel of a prefix depends on the prefix alone.
proof fn lemma_first_sentinel_prefix(
    f1: Seq<VideoFrame>,
    f2: Seq<VideoFrame>,
    size: int,
    upto: int,
)
    requires
        0 <= upto <= f1.len(),
        upto <= f2.len(),
        forall|i: int| 0 <= i < upto ==> f1[i] == f2[i],
    ensures
        spec_first_sentinel(f1, size, upto) == spec_first_sentinel(f2, size, upto),
    decreases upto,
{
    if upto > 0 {
        lemma_first_sentinel_prefix(f1, f2, size, upto - 1);
    }
}

/// The page map of a prefix depends on the prefix alone.
proof fn lemma_page_map_prefix(
    f1: Seq<VideoFrame>,
    f2: Seq<VideoFrame>,
    size: int,
    algo: AlgoFrame,
    upto: int,
)
    requires
        0 <= upto <= f1.len(),
        upto <= f2.len(),
        forall|i: int| 0 <= i < upto ==> f1[i] == f2[i],
    ensures
        spec_page_map(f1, size, algo, upto) == spec_page_map(f2, size, algo, upto),
    decreases upto,
{
    if upto > 0 {
        lemma_page_map_prefix(f1, f2, size, algo, upto - 1);
    }
}

/// When no sentinel was found, no frame of the prefix is one.
proof fn lemma_first_sentinel_covers(frames: Seq<VideoFrame>, size: int, upto: int)
    requires
        upto <= frames.len(),
        spec_first_sentinel(frames, size, upto) is None,
    ensures
        forall|i: int| 0 <= i < upto ==> !spec_frame_is_red(#[trigger] frames[i], size),
    decreases upto,
{
    if upto > 0 {
        lemma_first_sentinel_covers(frames, size, upto - 1);
    }
}

/// The value of the first sentinel is the header value of a sentinel frame of
/// the prefix.
proof fn lemma_first_sentinel_witness(frames: Seq<VideoFrame>, size: int, upto: int)
    requires
        upto <= frames.len(),
        spec_first_sentinel(frames, size, upto) is Some,
    ensures
        exists|i: int|
            0 <= i < upto && #[trigger] spec_frame_is_red(frames[i], size) && frame_header_value(
                frames[i],
                size,
            ) == spec_first_sentinel(frames, size, upto)->0,
    decreases upto,
{
    if spec_first_sentinel(frames, size, upto - 1) is Some {
        lemma_first_sentinel_witness(frames, size, upto - 1);
        let i = choose|i: int|
            0 <= i < upto - 1 && #[trigger] spec_frame_is_red(frames[i], size)
                && frame_header_value(frames[i], size) == spec_first_sentinel(
                frames,
                size,
                upto - 1,
            )->0;
        assert(spec_frame_is_red(frames[i], size));
    } else {
        assert(spec_frame_is_red(frames[upto - 1], size));
    }
}

/// Every data frame of the prefix has its page in the map, and every page of
/// the map comes from a data frame of the prefix.
proof fn lemma_page_map_domain(frames: Seq<VideoFrame>, size: int, algo: AlgoFrame, upto: int)
    requires
        0 <= upto <= frames.len(),
    ensures
        forall|i: int|
            0 <= i < upto && !spec_frame_is_red(#[trigger] frames[i], size) ==> spec_page_map(
                frames,
                size,
                algo,
                upto,
            ).contains_key(frame_header_value(frames[i], size)),
        forall|p: u64|
            #[trigger] spec_page_map(frames, size, algo, upto).contains_key(p) ==> exists|i: int|
                0 <= i < upto && !spec_frame_is_red(#[trigger] frames[i], size)
                    && frame_header_value(frames[i], size) == p,
    decreases upto,
{
    if upto > 0 {
        lemma_page_map_domain(frames, size, algo, upto - 1);
        let prev = spec_page_map(frames, size, algo, upto - 1);
        let m = spec_page_map(frames, size, algo, upto);
        assert forall|p: u64| #[trigger] m.contains_key(p) implies exists|i: int|
            0 <= i < upto && !spec_frame_is_red(#[trigger] frames[i], size) && frame_header_value(
                frames[i],
                size,
            ) == p by {
            if prev.contains_key(p) {
                let i = choose|i: int|
                    0 <= i < upto - 1 && !spec_frame_is_red(#[trigger] frames[i], size)
                        && frame_header_value(frames[i], size) == p;
                assert(!spec_frame_is_red(frames[i], size));
            } else {
                assert(!spec_frame_is_red(frames[upto - 1], size) && frame_header_value(
                    frames[upto - 1],
                    size,
                ) == p);
            }
        }
    }
}

/// Whether any two data frames that carry the same page number carry the same
/// content, and any two sentinels carry the same length. Frames captured from
/// one played-back encoding always agree in this way.
pub open spec fn frames_coherent(frames: Seq<VideoFrame>, size: int, algo: AlgoFrame) -> bool {
    &&& forall|i: int, j: int|
        0 <= i < frames.len() && 0 <= j < frames.len() && spec_frame_is_red(
            #[trigger] frames[i],
            size,
        ) && spec_frame_is_red(#[trigger] frames[j], size) ==> frame_header_value(frames[i], size)
            == frame_header_value(frames[j], size)
    &&& forall|i: int, j: int|
        0 <= i < frames.len() && 0 <= j < frames.len() && !spec_frame_is_red(
            #[trigger] frames[i],
            size,
        ) && !spec_frame_is_red(#[trigger] frames[j], size) && frame_header_value(frames[i], size)
            == frame_header_value(frames[j], size) ==> frame_content(frames[i], size, algo)
            == frame_content(frames[j], size, algo)
}

/// Under coherence, the map binds every page to the content of any data frame
/// that carries it.
proof fn lemma_page_map_values(frames: Seq<VideoFrame>, size: int, algo: AlgoFrame, upto: int)
    requires
        frames_coherent(frames, size, algo),
        0 <= upto <= frames.len(),
    ensures
        forall|i: int|
            0 <= i < upto && !spec_frame_is_red(#[trigger] frames[i], size) ==> spec_page_map(
                frames,
                size,
                algo,
                upto,
            )[frame_header_value(frames[i], size)] == frame_content(frames[i], size, algo),
    decreases upto,
{
    if upto > 0 {
        lemma_page_map_values(frames, size, algo, upto - 1);
        lemma_page_map_domain(frames, size, algo, upto - 1);
        let prev = spec_page_map(frames, size, algo, upto - 1);
        let m = spec_page_map(frames, size, algo, upto);
        let f = frames[upto - 1];
        assert forall|i: int|
            0 <= i < upto && !spec_frame_is_red(#[trigger] frames[i], size) implies m[frame_header_value(
            frames[i],
            size,
        )] == frame_content(frames[i], size, algo) by {
            let p = frame_header_value(frames[i], size);
            if !spec_frame_is_red(f, size) && frame_header_value(f, size) == p {
                if prev.contains_key(p) {
                    let e = choose|e: int|
                        0 <= e < upto - 1 && !spec_frame_is_red(#[trigger] frames[e], size)
                            && frame_header_value(frames[e], size) == p;
                    assert(prev[p] == frame_content(frames[e], size, algo));
                    assert(frame_content(frames[e], size, algo) == frame_content(
                        frames[i],
                        size,
                        algo,
                    ));
                } else {
                    assert(m[p] == frame_content(f, size, algo));
                    assert(frame_content(f, size, algo) == frame_content(frames[i], size, algo));
                }
            } else {
                if i < upto - 1 {
                    assert(prev[p] == frame_content(frames[i], size, algo));
                    if !spec_frame_is_red(f, size) && !prev.contains_key(
                        frame_header_value(f, size),
                    ) {
                        assert(prev.contains_key(p));
                        assert(m == prev.insert(
                            frame_header_value(f, size),
                            frame_content(f, size, algo),
                        ));
                        assert(m[p] == prev[p]);
                    }
                }
            }
        }
    }
}

/// Decoding the same frame a second time never duplicates its bytes in the
/// output: processing a frame again leaves the page map, and so the decoded
/// result, exactly as it was.
pub proof fn lemma_idempotent_insertion(
    frames: Seq<VideoFrame>,
    size: int,
    algo: AlgoFrame,
    i: int,
)
    requires
        0 <= i < frames.len(),
    ensures
        spec_decode(frames.push(frames[i]), size, algo) == spec_decode(frames, size, algo),
{
    let f2 = frames.push(frames[i]);
    let len = frames.len() as int;
    lemma_first_sentinel_prefix(frames, f2, size, len);
    lemma_page_map_prefix(frames, f2, size, algo, len);
    let sv = spec_first_sentinel(frames, size, len);
    let m = spec_page_map(frames, size, algo, len);
    assert(f2[len] == frames[i]);
    if sv is None {
        lemma_first_sentinel_covers(frames, size, len);
        assert(!spec_frame_is_red(frames[i], size));
        assert(spec_first_sentinel(f2, size, len + 1) is None);
        lemma_page_map_domain(frames, size, algo, len);
        assert(spec_page_map(f2, size, algo, len + 1) == m);
    } else {
        assert(spec_first_sentinel(f2, size, len + 1) == sv);
        if !spec_frame_is_red(frames[i], size) {
            lemma_page_map_domain(frames, size, algo, len);
            assert(m.contains_key(frame_header_value(frames[i], size)));
        }
        assert(spec_page_map(f2, size, algo, len + 1) == m);
    }
}

/// Two frames that read the same: same classification, same header value,
/// same content.
pub open spec fn frame_obs_eq(a: VideoFrame, b: VideoFrame, size: int, algo: AlgoFrame) -> bool {
    &&& spec_frame_is_red(a, size) == spec_frame_is_red(b, size)
    &&& frame_header_value(a, size) == frame_header_value(b, size)
    &&& frame_content(a, size, algo) == frame_content(b, size, algo)
}

/// Whether a frame that reads like `a` occurs somewhere in `frames`.
pub open spec fn observed_in(
    a: VideoFrame,
    frames: Seq<VideoFrame>,
    size: int,
    algo: AlgoFrame,
) -> bool {
    exists|j: int| 0 <= j < frames.len() && #[trigger] frame_obs_eq(a, frames[j], size, algo)
}

/// Whether the two sequences hold the same frames as far as decoding can
/// tell, each frame of one reading like some frame of the other.
pub open spec fn same_frame_observations(
    f1: Seq<VideoFrame>,
    f2: Seq<VideoFrame>,
    size: int,
    algo: AlgoFrame,
) -> bool {
    &&& forall|i: int| 0 <= i < f1.len() ==> observed_in(#[trigger] f1[i], f2, size, algo)
    &&& forall|j: int| 0 <= j < f2.len() ==> observed_in(#[trigger] f2[j], f1, size, algo)
}

/// Order independence: two coherent captures that hold the same frames — in
/// any order, duplicated or not — decode to the identical result.
#[verifier::rlimit(100)]
pub proof fn lemma_order_independence(
    f1: Seq<VideoFrame>,
    f2: Seq<VideoFrame>,
    size: int,
    algo: AlgoFrame,
)
    requires
        frames_coherent(f1, size, algo),
        same_frame_observations(f1, f2, size, algo),
    ensures
        spec_decode(f1, size, algo) == spec_decode(f2, size, algo),
{
    let len1 = f1.len() as int;
    let len2 = f2.len() as int;
    assert(frames_coherent(f2, size, algo)) by {
        assert forall|i: int, j: int|
            0 <= i < len2 && 0 <= j < len2 && spec_frame_is_red(#[trigger] f2[i], size)
                && spec_frame_is_red(#[trigger] f2[j], size) implies frame_header_value(
            f2[i],
            size,
        ) == frame_header_value(f2[j], size) by {
            let a = choose|a: int| 0 <= a < len1 && #[trigger] frame_obs_eq(f2[i], f1[a], size, algo);
            let b = choose|b: int| 0 <= b < len1 && #[trigger] frame_obs_eq(f2[j], f1[b], size, algo);
            assert(spec_frame_is_red(f1[a], size) && spec_frame_is_red(f1[b], size));
        }
        assert forall|i: int, j: int|
            0 <= i < len2 && 0 <= j < len2 && !spec_frame_is_red(#[trigger] f2[i], size)
                && !spec_frame_is_red(#[trigger] f2[j], size) && frame_header_value(f2[i], size)
                == frame_header_value(f2[j], size) implies frame_content(f2[i], size, algo)
            == frame_content(f2[j], size, algo) by {
            let a = choose|a: int| 0 <= a < len1 && #[trigger] frame_obs_eq(f2[i], f1[a], size, algo);
            let b = choose|b: int| 0 <= b < len1 && #[trigger] frame_obs_eq(f2[j], f1[b], size, algo);
            assert(!spec_frame_is_red(f1[a], size) && !spec_frame_is_red(f1[b], size));
            assert(frame_content(f1[a], size, algo) == frame_content(f1[b], size, algo));
        }
    }
    let sv1 = spec_first_sentinel(f1, size, len1);
    let sv2 = spec_first_sentinel(f2, size, len2);
    assert(sv1 == sv2) by {
        if sv1 is None {
            lemma_first_sentinel_covers(f1, size, len1);
            if sv2 is Some {
                lemma_first_sentinel_witness(f2, size, len2);
                let i = choose|i: int|
                    0 <= i < len2 && #[trigger] spec_frame_is_red(f2[i], size)
                        && frame_header_value(f2[i], size) == sv2->0;
                let a = choose|a: int|
                    0 <= a < len1 && #[trigger] frame_obs_eq(f2[i], f1[a], size, algo);
                assert(spec_frame_is_red(f1[a], size));
                assert(false);
            }
        } else {
            lemma_first_sentinel_witness(f1, size, len1);
            let i = choose|i: int|
                0 <= i < len1 && #[trigger] spec_frame_is_red(f1[i], size) && frame_header_value(
                    f1[i],
                    size,
                ) == sv1->0;
            let b = choose|b: int| 0 <= b < len2 && #[trigger] frame_obs_eq(f1[i], f2[b], size, algo);
            assert(spec_frame_is_red(f2[b], size));
            if sv2 is None {
                lemma_first_sentinel_covers(f2, size, len2);
                assert(false);
            }
            lemma_first_sentinel_witness(f2, size, len2);
            let j = choose|j: int|
                0 <= j < len2 && #[trigger] spec_frame_is_red(f2[j], size) && frame_header_value(
                    f2[j],
                    size,
                ) == sv2->0;
            assert(frame_header_value(f2[j], size) == frame_header_value(f2[b], size));
            assert(frame_header_value(f2[b], size) == frame_header_value(f1[i], size));
        }
    }
    let m1 = spec_page_map(f1, size, algo, len1);
    let m2 = spec_page_map(f2, size, algo, len2);
    lemma_page_map_domain(f1, size, algo, len1);
    lemma_page_map_domain(f2, size, algo, len2);
    lemma_page_map_values(f1, size, algo, len1);
    lemma_page_map_values(f2, size, algo, len2);
    assert(m1 == m2) by {
        assert forall|p: u64| #[trigger] m1.contains_key(p) implies m2.contains_key(p) && m2[p]
            == m1[p] by {
            let i = choose|i: int|
                0 <= i < len1 && !spec_frame_is_red(#[trigger] f1[i], size) && frame_header_value(
                    f1[i],
                    size,
                ) == p;
            let b = choose|b: int| 0 <= b < len2 && #[trigger] frame_obs_eq(f1[i], f2[b], size, algo);
            assert(!spec_frame_is_red(f2[b], size) && frame_header_value(f2[b], size) == p);
            assert(m2.contains_key(p));
            assert(m1[p] == frame_content(f1[i], size, algo));
            assert(m2[p] == frame_content(f2[b], size, algo));
        }
        assert forall|p: u64| #[trigger] m2.contains_key(p) implies m1.contains_key(p) by {
            let j = choose|j: int|
                0 <= j < len2 && !spec_frame_is_red(#[trigger] f2[j], size) && frame_header_value(
                    f2[j],
                    size,
                ) == p;
            let a = choose|a: int| 0 <= a < len1 && #[trigger] frame_obs_eq(f2[j], f1[a], size, algo);
            assert(!spec_frame_is_red(f1[a], size) && frame_header_value(f1[a], size) == p);
        }
        assert(m1 =~= m2);
    }
}

/// Inserting an exact duplicate of any already-present frame anywhere in the
/// sequence does not change the decoded result.
#[verifier::rlimit(100)]
pub proof fn lemma_duplicate_tolerance(
    frames: Seq<VideoFrame>,
    size: int,
    algo: AlgoFrame,
    i: int,
    pos: int,
)
    requires
        frames_coherent(frames, size, algo),
        0 <= i < frames.len(),
        0 <= pos <= frames.len(),
    ensures
        spec_decode(frames.insert(pos, frames[i]), size, algo) == spec_decode(frames, size, algo),
{
    let f2 = frames.insert(pos, frames[i]);
    frames.insert_ensures(pos, frames[i]);
    assert(same_frame_observations(frames, f2, size, algo)) by {
        assert forall|a: int| 0 <= a < frames.len() implies observed_in(
            #[trigger] frames[a],
            f2,
            size,
            algo,
        ) by {
            if a < pos {
                assert(frame_obs_eq(frames[a], f2[a], size, algo));
            } else {
                assert(f2[a + 1] == frames[a]);
                assert(frame_obs_eq(frames[a], f2[a + 1], size, algo));
            }
        }
        assert forall|b: int| 0 <= b < f2.len() implies observed_in(
            #[trigger] f2[b],
            frames,
            size,
            algo,
        ) by {
            if b < pos {
                assert(frame_obs_eq(f2[b], frames[b], size, algo));
            } else if b == pos {
                assert(f2[b] == frames[i]);
                assert(frame_obs_eq(f2[b], frames[i], size, algo));
            } else {
                assert(f2[b] == frames[b - 1]);
                assert(frame_obs_eq(f2[b], frames[b - 1], size, algo));
            }
        }
    }
    lemma_order_independence(frames, f2, size, algo);
}


/// Round trip in black-and-white mode, with no side condition: a
/// black-and-white data frame can never pass for the sentinel.
pub proof fn lemma_round_trip_bw(
    sentinel: VideoFrame,
    pages: Seq<VideoFrame>,
    data: Seq<u8>,
    width: int,
    height: int,
    size: int,
)
    requires
        valid_geometry(width, height, size, AlgoFrame::BW),
        data.len() <= u64::MAX,
        spec_sentinel_frame(sentinel, width, height, size, data.len() as u64),
        pages.len() == spec_frame_count(
            data.len() as int,
            bytes_per_frame(width, height, size, AlgoFrame::BW),
        ),
        forall|k: int|
            0 <= k < pages.len() ==> spec_data_frame(
                #[trigger] pages[k],
                width,
                height,
                size,
                AlgoFrame::BW,
                k as u64,
                data,
            ),
    ensures
        spec_decode(seq![sentinel] + pages, size, AlgoFrame::BW) == Ok::<Seq<u8>, DecodeError>(
            data,
        ),
{
    assert forall|k: int| 0 <= k < pages.len() implies !spec_frame_is_red(
        #[trigger] pages[k],
        size,
    ) by {
        lemma_bw_data_frame_not_red(pages[k], width, height, size, k as u64, data);
    }
    lemma_round_trip(sentinel, pages, data, width, height, size, AlgoFrame::BW);
}

/// A correctly encoded sequence is coherent: its only sentinel is the
/// starting frame, and each page number names one content.
pub proof fn lemma_encoded_frames_coherent(
    sentinel: VideoFrame,
    pages: Seq<VideoFrame>,
    data: Seq<u8>,
    width: int,
    height: int,
    size: int,
    algo: AlgoFrame,
)
    requires
        valid_geometry(width, height, size, algo),
        spec_frame_is_red(sentinel, size),
        pages.len() <= u64::MAX,
        forall|k: int|
            0 <= k < pages.len() ==> spec_data_frame(
                #[trigger] pages[k],
                width,
                height,
                size,
                algo,
                k as u64,
                data,
            ),
        forall|k: int| 0 <= k < pages.len() ==> !spec_frame_is_red(#[trigger] pages[k], size),
    ensures
        frames_coherent(seq![sentinel] + pages, size, algo),
{
    let f = seq![sentinel] + pages;
    assert forall|k: int| 1 <= k < f.len() implies (!spec_frame_is_red(#[trigger] f[k], size)
        && frame_header_value(f[k], size) == k - 1) by {
        assert(f[k] == pages[k - 1]);
        lemma_decode_data_frame(pages[k - 1], width, height, size, algo, (k - 1) as u64, data);
    }
    assert forall|i: int, j: int|
        0 <= i < f.len() && 0 <= j < f.len() && spec_frame_is_red(#[trigger] f[i], size)
            && spec_frame_is_red(#[trigger] f[j], size) implies frame_header_value(f[i], size)
        == frame_header_value(f[j], size) by {
        assert(i == 0 && j == 0);
    }
    assert forall|i: int, j: int|
        0 <= i < f.len() && 0 <= j < f.len() && !spec_frame_is_red(#[trigger] f[i], size)
            && !spec_frame_is_red(#[trigger] f[j], size) && frame_header_value(f[i], size)
            == frame_header_value(f[j], size) implies frame_content(f[i], size, algo)
        == frame_content(f[j], size, algo) by {
        assert(i >= 1 && j >= 1);
        assert(i - 1 == j - 1);
    }
}

} // verus!
