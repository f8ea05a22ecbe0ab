/*!
Byte <-> frame codec for transporting a file over a video medium.

A payload is encoded into a sequence of self-describing frames: one sentinel
frame carrying the payload length (the Instruction), followed by data frames
each carrying a zero-based page index (the Pagination) and a slice of the
payload. Decoding tolerates reordered and duplicated frames and fails loudly
when a page or the sentinel is missing.
*/

mod bitlogics;
mod extractionlogics;
mod injectionextraction;
mod injectionlogics;
mod instructionlogics;
mod laws;
pub mod options;
mod videoframe;

pub use crate::bitlogics::{
    get_bit_at, get_bit_at64, get_bit_from_rgb, get_byte_from_bits, get_rgb_for_bit, mutate_byte,
};
pub use crate::extractionlogics::{
    check_red_frame, frame_to_data_method_bw, frame_to_data_method_rgb, frames_to_data,
    mutate_frame, DecodeError, FrameBytesInfo,
};
pub use crate::injectionextraction::Color;
pub use crate::injectionlogics::{
    create_starting_frame, data_to_frames, data_to_frames_method_bw, data_to_frames_method_rgb,
};
pub use crate::instructionlogics::Instruction;
pub use crate::laws::{
    lemma_bw_data_frame_not_red, lemma_decode_data_frame, lemma_decode_sentinel_frame,
    lemma_duplicate_tolerance, lemma_encoded_frames_coherent, lemma_idempotent_insertion,
    lemma_missing_page_fatal, lemma_missing_sentinel_fatal, lemma_order_independence,
    lemma_round_trip, lemma_round_trip_bw,
};
pub use crate::options::{extract_options, CliData, ExtractOptions, InjectOptions, VideoOptions};
pub use crate::videoframe::VideoFrame;
