use hdmifiletransporter::options::AlgoFrame;
use hdmifiletransporter::{
    create_starting_frame, data_to_frames, frames_to_data, DecodeError, ExtractOptions,
    InjectOptions, Instruction, VideoFrame,
};

fn get_unit_test_injection_option(size: u8, width: u16, height: u16) -> InjectOptions {
    InjectOptions {
        fps: 30,
        width,
        height,
        size,
        algo: AlgoFrame::BW,
        show_progress: false,
        file_path: "".to_string(),
        output_video_file: "".to_string(),
    }
}

fn get_unit_test_extraction_option(size: u8, width: u16, height: u16) -> ExtractOptions {
    ExtractOptions {
        video_file_path: "".to_string(),
        extracted_file_path: "".to_string(),
        fps: 30,
        width,
        height,
        size,
        algo: AlgoFrame::BW,
        show_progress: false,
    }
}

fn get_unit_test_data(number_of_byte: u64) -> Vec<u8> {
    let mut result = Vec::new();
    for i in 0..number_of_byte {
        result.push(((i % 65) + 65) as u8);
    }
    result
}

fn swap_elements<T: Clone>(vec: &mut Vec<T>, index1: usize, index2: usize) {
    let temp1 = vec[index1].clone();
    let temp2 = vec[index2].clone();

    vec[index1] = temp2;
    vec[index2] = temp1;
}

#[test]
fn test_frames_to_data_all_frames_good_order() {
    // Arrange
    let size = 1;
    let width = 64;
    let height = 3;
    let inject_options = get_unit_test_injection_option(size, width, height);
    let extract_options = get_unit_test_extraction_option(size, width, height);

    let number_bytes = width as u64 * (height as u64 - 1) * 5;
    let instruction_data = Instruction::new(number_bytes);
    let starting_frame = create_starting_frame(&instruction_data, &inject_options);

    let frame_data = get_unit_test_data(number_bytes);
    let frames = data_to_frames(&inject_options, frame_data);
    let mut merged_frames = vec![starting_frame];
    merged_frames.extend(frames);

    // Act
    let data_from_frames = frames_to_data(&extract_options, merged_frames).unwrap();

    // Assert
    assert_eq!(data_from_frames.len(), number_bytes as usize)
}

#[test]
fn test_frames_to_data_all_frames_mixed_order() {
    // Arrange
    let size = 1;
    let width = 64;
    let height = 3;
    let inject_options = get_unit_test_injection_option(size, width, height);
    let extract_options = get_unit_test_extraction_option(size, width, height);

    let number_bytes = width as u64 * (height as u64 - 1) * 5;
    let instruction_data = Instruction::new(number_bytes);
    let starting_frame = create_starting_frame(&instruction_data, &inject_options);

    let frame_data = get_unit_test_data(number_bytes);
    let frames = data_to_frames(&inject_options, frame_data);

    // Mix the order of the frames
    let mut merged_frames = vec![starting_frame];
    merged_frames.extend(frames);
    swap_elements(&mut merged_frames, 0, 1);
    swap_elements(&mut merged_frames, 2, 3);

    // Act
    let data_from_frames = frames_to_data(&extract_options, merged_frames).unwrap();

    // Assert
    assert_eq!(data_from_frames.len(), number_bytes as usize)
}

#[test]
fn test_frames_to_data_all_frames_repeting_frame() {
    // Arrange
    let size = 1;
    let width = 64;
    let height = 3;
    let inject_options = get_unit_test_injection_option(size, width, height);
    let extract_options = get_unit_test_extraction_option(size, width, height);

    let number_bytes = width as u64 * (height as u64 - 1) * 5;
    let instruction_data = Instruction::new(number_bytes);
    let starting_frame = create_starting_frame(&instruction_data, &inject_options);

    let frame_data = get_unit_test_data(number_bytes);

    let frames = data_to_frames(&inject_options, frame_data);
    let clone1 = frames[0].clone();
    let mut merged_frames = vec![starting_frame];
    merged_frames.extend(frames);
    merged_frames.push(clone1); // Add the first frame twice

    // Act
    let data_from_frames = frames_to_data(&extract_options, merged_frames).unwrap();

    // Assert
    assert_eq!(data_from_frames.len(), number_bytes as usize)
}

#[test]
fn test_frames_to_data_missing_one_frame_fails() {
    // Arrange
    let size = 1;
    let width = 64;
    let height = 3;
    let inject_options = get_unit_test_injection_option(size, width, height);
    let extract_options = get_unit_test_extraction_option(size, width, height);

    let number_bytes = width as u64 * (height as u64 - 1) * 5;
    let instruction_data = Instruction::new(number_bytes);
    let starting_frame = create_starting_frame(&instruction_data, &inject_options);

    let frame_data = get_unit_test_data(number_bytes);

    let frames = data_to_frames(&inject_options, frame_data);
    let mut merged_frames = vec![starting_frame];
    merged_frames.extend(frames);
    merged_frames.remove(2);

    // Act: a removed data frame is a gap that is never papered over
    let result = frames_to_data(&extract_options, merged_frames);

    // Assert
    assert_eq!(result.unwrap_err(), DecodeError::IncompleteTransfer);
}

#[test]
fn test_frames_to_data_missing_instruction_frame_fails() {
    // Arrange
    let size = 1;
    let width = 64;
    let height = 3;
    let inject_options = get_unit_test_injection_option(size, width, height);
    let extract_options = get_unit_test_extraction_option(size, width, height);

    let number_bytes = width as u64 * (height as u64 - 1) * 5;

    let frame_data = get_unit_test_data(number_bytes);
    let frames = data_to_frames(&inject_options, frame_data);

    // Act: without the starting frame the payload length is unknown
    let result = frames_to_data(&extract_options, frames);

    // Assert
    assert_eq!(result.unwrap_err(), DecodeError::InstructionNotFound);
}

#[test]
fn test_round_trip_bw_exact_content() {
    // Encode then decode in original order returns exactly the input bytes.
    let size = 1;
    let width = 40;
    let height = 4;
    let inject_options = get_unit_test_injection_option(size, width, height);
    let extract_options = get_unit_test_extraction_option(size, width, height);

    let payload = get_unit_test_data(100);
    let instruction_data = Instruction::new(payload.len() as u64);
    let starting_frame = create_starting_frame(&instruction_data, &inject_options);
    let frames = data_to_frames(&inject_options, payload.clone());
    let mut merged_frames = vec![starting_frame];
    merged_frames.extend(frames);

    let decoded = frames_to_data(&extract_options, merged_frames).unwrap();
    assert_eq!(decoded, payload);
}

#[test]
fn test_scenario_rgb_shuffled() {
    // Geometry 64x3 with cell size 1 in RGB mode; a known 640-byte payload.
    // Decoding in the original order and decoding with neighbors swapped
    // both return the same 640 bytes, identical to the input.
    let size = 1;
    let width = 64;
    let height = 3;
    let mut inject_options = get_unit_test_injection_option(size, width, height);
    inject_options.algo = AlgoFrame::RGB;
    let mut extract_options = get_unit_test_extraction_option(size, width, height);
    extract_options.algo = AlgoFrame::RGB;

    let payload = get_unit_test_data(640);
    let instruction_data = Instruction::new(payload.len() as u64);
    let starting_frame = create_starting_frame(&instruction_data, &inject_options);
    let frames = data_to_frames(&inject_options, payload.clone());
    let mut merged_frames = vec![starting_frame];
    merged_frames.extend(frames);

    let in_order = frames_to_data(&extract_options, merged_frames.clone()).unwrap();
    assert_eq!(in_order.len(), 640);
    assert_eq!(in_order, payload);

    let last = merged_frames.len() - 1;
    swap_elements(&mut merged_frames, 0, 1);
    swap_elements(&mut merged_frames, last - 1, last);
    let shuffled = frames_to_data(&extract_options, merged_frames).unwrap();
    assert_eq!(shuffled, payload);
}

#[test]
fn test_scenario_bw_discards_padding() {
    // Black-and-white mode, 64x64, cell size 1, a 4-byte payload: the
    // instruction declares 4 and decode yields exactly those 4 bytes,
    // discarding all null padding beyond byte 4.
    let size = 1;
    let width = 64;
    let height = 64;
    let inject_options = get_unit_test_injection_option(size, width, height);
    let extract_options = get_unit_test_extraction_option(size, width, height);

    let payload = vec![84, 104, 105, 115];
    let instruction_data = Instruction::new(payload.len() as u64);
    assert_eq!(instruction_data.get_data_size(), 4);
    let starting_frame = create_starting_frame(&instruction_data, &inject_options);
    let frames = data_to_frames(&inject_options, payload.clone());
    let mut merged_frames = vec![starting_frame];
    merged_frames.extend(frames);

    let decoded = frames_to_data(&extract_options, merged_frames).unwrap();
    assert_eq!(decoded.len(), 4);
    assert_eq!(decoded, payload);
}

#[test]
fn test_round_trip_empty_payload() {
    // An empty payload needs only the sentinel and decodes back to nothing.
    let size = 1;
    let width = 64;
    let height = 3;
    let inject_options = get_unit_test_injection_option(size, width, height);
    let extract_options = get_unit_test_extraction_option(size, width, height);

    let instruction_data = Instruction::new(0);
    let starting_frame = create_starting_frame(&instruction_data, &inject_options);
    let frames = data_to_frames(&inject_options, Vec::new());
    assert_eq!(frames.len(), 0);
    let merged_frames = vec![starting_frame];

    let decoded = frames_to_data(&extract_options, merged_frames).unwrap();
    assert_eq!(decoded.len(), 0);
}

#[test]
fn test_round_trip_size2_both_modes() {
    // A redundancy factor above one survives the write/average round trip.
    for algo in [AlgoFrame::BW, AlgoFrame::RGB] {
        let size = 2;
        let width = 32;
        let height = 16;
        let mut inject_options = get_unit_test_injection_option(size, width, height);
        inject_options.algo = algo;
        let mut extract_options = get_unit_test_extraction_option(size, width, height);
        extract_options.algo = algo;

        let payload = get_unit_test_data(23);
        let instruction_data = Instruction::new(payload.len() as u64);
        let starting_frame = create_starting_frame(&instruction_data, &inject_options);
        let frames = data_to_frames(&inject_options, payload.clone());
        let mut merged_frames = vec![starting_frame];
        merged_frames.extend(frames);

        let decoded = frames_to_data(&extract_options, merged_frames).unwrap();
        assert_eq!(decoded, payload);
    }
}
