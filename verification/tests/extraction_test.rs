use hdmifiletransporter::options::AlgoFrame;
use hdmifiletransporter::{
    check_red_frame, frame_to_data_method_bw, frame_to_data_method_rgb, ExtractOptions,
    Instruction, VideoFrame,
};

fn get_unit_test_option(width: u16, height: u16, size: u8) -> ExtractOptions {
    ExtractOptions {
        video_file_path: "".to_string(),
        extracted_file_path: "".to_string(),
        fps: 30,
        width,
        height,
        size,
        algo: AlgoFrame::RGB,
        show_progress: false,
    }
}

#[test]
fn test_frame_to_data_method_rgb_different_samerow() {
    let size = 1;
    // 64 cells for the pagination (64 bits) and 3 cells of data (9 values)
    let mut frame = VideoFrame::new(100, 64);
    let (x, y) = frame.write_pagination(0, 0, &1, size);

    // Write 9 bytes
    frame.write(10, 20, 30, x, y, size);
    frame.write(40, 50, 60, x + size as u16, y, size);
    frame.write(70, 80, 90, x + size as u16 * 2, y, size);

    // Act
    let result = frame_to_data_method_rgb(&frame, &get_unit_test_option(100, 64, size));
    assert_eq!(
        result.bytes.len(),
        (100 * 64 - (64 * (size as usize * size as usize))) / (size as usize * size as usize) * 3
    );
    assert_eq!(result.bytes[0], 10);
    assert_eq!(result.bytes[1], 20);
    assert_eq!(result.bytes[2], 30);
    assert_eq!(result.bytes[3], 40);
    assert_eq!(result.bytes[4], 50);
    assert_eq!(result.bytes[5], 60);
    assert_eq!(result.bytes[6], 70);
    assert_eq!(result.bytes[7], 80);
    assert_eq!(result.bytes[8], 90);
    assert_eq!(result.is_red_frame, false);
}

#[test]
fn test_frame_to_data_method_rgb_different_row() {
    let size = 1;
    let mut frame = VideoFrame::new(64, 64);

    let (x, y) = frame.write_pagination(0, 0, &1, size);
    // Write 9 bytes
    frame.write(10, 20, 30, x, y, size);
    frame.write(40, 50, 60, x + size as u16, y, size);
    frame.write(70, 80, 90, x + size as u16 * 2, y, size);

    // Act
    let result = frame_to_data_method_rgb(&frame, &get_unit_test_option(64, 64, 1));
    assert_eq!(result.bytes.len(), (64 * 64 - 64) * 3); // -64 for the pagination
    assert_eq!(result.bytes[0], 10);
    assert_eq!(result.bytes[1], 20);
    assert_eq!(result.bytes[2], 30);
    assert_eq!(result.bytes[3], 40);
    assert_eq!(result.bytes[4], 50);
    assert_eq!(result.bytes[5], 60);
    assert_eq!(result.bytes[6], 70);
    assert_eq!(result.bytes[7], 80);
    assert_eq!(result.bytes[8], 90);
    assert_eq!(result.is_red_frame, false);
    assert_eq!(result.pagination_or_instruction.unwrap().get_data_size(), 1);
}

#[test]
fn test_frame_to_data_method_rgb_size2() {
    let size = 2;
    let mut frame = VideoFrame::new(64, 64);
    let (x, y) = frame.write_pagination(0, 0, &1, size);

    // Write 9 bytes
    frame.write(10, 20, 30, x, y, size);
    frame.write(40, 50, 60, x + size as u16, y, size);
    frame.write(70, 80, 90, x + size as u16 * 2, y, size);

    // Act
    let result = frame_to_data_method_rgb(&frame, &get_unit_test_option(64, 64, size));
    assert_eq!(
        result.bytes.len(),
        (64 * 64 - (64 * (size as usize * size as usize))) / (size as usize * size as usize) * 3
    );
    assert_eq!(result.bytes[0], 10);
    assert_eq!(result.bytes[1], 20);
    assert_eq!(result.bytes[2], 30);
    assert_eq!(result.bytes[3], 40);
    assert_eq!(result.bytes[4], 50);
    assert_eq!(result.bytes[5], 60);
    assert_eq!(result.bytes[6], 70);
    assert_eq!(result.bytes[7], 80);
    assert_eq!(result.bytes[8], 90);
    assert_eq!(result.is_red_frame, false);
    assert_eq!(result.pagination_or_instruction.unwrap().get_data_size(), 1);
}

#[test]
fn test_frame_to_data_method_bw() {
    let mut frame = VideoFrame::new(64, 64);
    let write_data = 0b0011_1011; // The byte to write into a frame

    let (x, y) = frame.write_pagination(0, 0, &1, 1);
    frame.write(0, 0, 0, x, y, 1); // 0 bit
    frame.write(0, 0, 0, x + 1, y, 1); // 0 bit
    frame.write(255, 255, 255, x + 2, y, 1); // 1 bit
    frame.write(255, 255, 255, x + 3, y, 1); // 1 bit
    frame.write(255, 255, 255, x + 4, y, 1); // 1 bit
    frame.write(0, 0, 0, 5, y, 1); // 0 bit
    frame.write(255, 255, 255, x + 6, y, 1); // 1 bit
    frame.write(255, 255, 255, x + 7, y, 1); // 1 bit

    // Act
    let result = frame_to_data_method_bw(&frame, &get_unit_test_option(64, 64, 1));
    assert_eq!(result.bytes.len(), (64 * 64 - 64) / 8); // -64 for the pagination
    assert_eq!(result.bytes[0], write_data);
    assert_eq!(result.is_red_frame, false);
}

#[test]
fn test_frame_to_data_method_bw_size2() {
    let size = 2;
    let frame = VideoFrame::new(128, 64);

    let mut instr = Instruction {
        relevant_byte_count_in_64bits: [false; 64],
    };
    instr.relevant_byte_count_in_64bits[63] = true; // 1 byte

    // Act
    let result = frame_to_data_method_bw(&frame, &get_unit_test_option(128, 64, size));
    assert_eq!(
        result.bytes.len(),
        ((128_u64 / size as u64 * (64_u64 - 2) / size as u64) / 8) as usize
    );
    assert_eq!(result.is_red_frame, false);
}

#[test]
fn test_frame_to_data_method_bw_with_processesbytes() {
    let size = 1;
    let mut frame = VideoFrame::new(64, 64);
    let (_x, y) = frame.write_pagination(0, 0, &1, size);

    // Write on the second row (first was instruction since 64 bits)
    // First relevant byte (value 59)
    frame.write(0, 0, 0, 0, y, size); // 0 bit
    frame.write(0, 0, 0, 1, y, size); // 0 bit
    frame.write(255, 255, 255, 2, y, size); // 1 bit
    frame.write(255, 255, 255, 3, y, size); // 1 bit
    frame.write(255, 255, 255, 4, y, size); // 1 bit
    frame.write(0, 0, 0, 5, y, size); // 0 bit
    frame.write(255, 255, 255, 6, y, size); // 1 bit
    frame.write(255, 255, 255, 7, y, size); // 1 bit

    // Second relevant byte (value 251)
    frame.write(255, 255, 255, 8, y, size); // 1 bit
    frame.write(255, 255, 255, 9, y, size); // 1 bit
    frame.write(255, 255, 255, 10, y, size); // 1 bit
    frame.write(255, 255, 255, 11, y, size); // 1 bit
    frame.write(255, 255, 255, 12, y, size); // 1 bit
    frame.write(0, 0, 0, 5, y, size); // 0 bit
    frame.write(255, 255, 255, 14, y, size); // 1 bit
    frame.write(255, 255, 255, 15, y, size); // 1 bit

    // Third irrelevant byte
    frame.write(255, 255, 255, 16, y, size);
    frame.write(0, 0, 0, 17, y, size);
    frame.write(0, 0, 0, 18, y, size);
    frame.write(255, 255, 255, 19, y, size);
    frame.write(255, 255, 255, 20, y, size);
    frame.write(0, 0, 0, 21, y, size);
    frame.write(0, 0, 0, 22, y, size);
    frame.write(255, 255, 255, 23, y, size);

    // Forth irrelevant byte
    frame.write(255, 255, 255, 24, y, size);
    frame.write(0, 0, 0, 25, y, size);
    frame.write(0, 0, 0, 26, y, size);
    frame.write(255, 255, 255, 27, y, size);
    frame.write(255, 255, 255, 28, y, size);
    frame.write(0, 0, 0, 29, y, size);
    frame.write(0, 0, 0, 30, y, size);
    frame.write(255, 255, 255, 31, y, size);

    // Act
    let result = frame_to_data_method_bw(&frame, &get_unit_test_option(64, 64, 1));
    assert_eq!(result.bytes.len(), (64 * 64 - 64) / 8);
    assert_eq!(result.bytes[0], 59);
    assert_eq!(result.bytes[1], 251);
    assert_eq!(result.is_red_frame, false);
}

#[test]
fn text_check_red_frame_white() {
    let mut rgbs = Vec::new();
    for i in 0..64 {
        rgbs.push(vec![0, 0, i]); // Pagination random
    }
    rgbs.push(vec![0, 0, 0]);
    let result = check_red_frame(&rgbs);
    assert_eq!(result, false)
}

#[test]
fn text_check_red_frame_black() {
    let mut rgbs = Vec::new();
    for i in 0..64 {
        rgbs.push(vec![0, 0, i]); // Pagination random
    }
    rgbs.push(vec![255, 255, 255]);
    let result = check_red_frame(&rgbs);
    assert_eq!(result, false)
}

#[test]
fn text_check_red_frame_red() {
    let mut rgbs = Vec::new();
    for i in 0..64 {
        rgbs.push(vec![0, 0, i]); // Pagination random
    }
    rgbs.push(vec![255, 0, 0]);
    let result = check_red_frame(&rgbs);
    assert_eq!(result, true)
}

#[test]
fn text_check_red_frame_almost_red() {
    let mut rgbs = Vec::new();
    for i in 0..64 {
        rgbs.push(vec![0, 0, i]); // Pagination random
    }
    rgbs.push(vec![245, 5, 10]);
    let result = check_red_frame(&rgbs);
    assert_eq!(result, true)
}

#[test]
fn text_check_red_frame_too_far_from_red() {
    let mut rgbs = Vec::new();
    for i in 0..64 {
        rgbs.push(vec![0, 0, i]); // Pagination random
    }
    rgbs.push(vec![245, 45, 10]);
    let result = check_red_frame(&rgbs);
    assert_eq!(result, false)
}

#[test]
fn test_frame_to_data_method_bw_pagination() {
    let size = 1;
    let page_number = 5;
    let mut frame = VideoFrame::new(64, 10);
    let write_data = 0b0011_1011; // The byte to write into a frame

    // Write on the first row after the pagination
    let (x, _y) = frame.write_pagination(0, 0, &page_number, size);
    frame.write(0, 0, 0, x, 1, 1); // 0 bit
    frame.write(0, 0, 0, x + 1, 1, 1); // 0 bit
    frame.write(255, 255, 255, x + 2, 1, 1); // 1 bit
    frame.write(255, 255, 255, x + 3, 1, 1); // 1 bit
    frame.write(255, 255, 255, x + 4, 1, 1); // 1 bit
    frame.write(0, 0, 0, 5, x + 1, 1); // 0 bit
    frame.write(255, 255, 255, x + 6, 1, 1); // 1 bit
    frame.write(255, 255, 255, x + 7, 1, 1); // 1 bit

    // Act
    let options = get_unit_test_option(64, 10, 1);
    let result = frame_to_data_method_bw(&frame, &options);
    assert_eq!(result.bytes.len(), (64 * 10 - 64) / 8);
    assert_eq!(
        result.pagination_or_instruction.unwrap().get_data_size(),
        page_number
    ); // Check if we can read back the page number
    assert_eq!(result.bytes[0], write_data);
    assert_eq!(result.is_red_frame, false);
}

#[test]
fn test_frame_to_data_method_rgb_pagination() {
    let size = 1;
    let page_number = 5;
    let mut frame = VideoFrame::new(64, 3);

    // Write on the second row (first was the pagination)
    let (_x, _y) = frame.write_pagination(0, 0, &page_number, size);
    for i in 0..64 {
        frame.write(10, 20, 30, i, 1, size); // Y=1
        frame.write(10, 20, 30, i, 2, size); // Y=2
    }

    // Act
    let options = get_unit_test_option(64, 3, 1);
    let result = frame_to_data_method_rgb(&frame, &options);
    assert_eq!(result.bytes.len(), 384); // Loop 64 times 3 bytes = 192 x 2 rows
    assert_eq!(
        result.pagination_or_instruction.unwrap().get_data_size(),
        page_number
    );
    assert_eq!(result.bytes[0], 10);
    assert_eq!(result.bytes[1], 20);
    assert_eq!(result.bytes[2], 30);
    assert_eq!(result.is_red_frame, false);
}
