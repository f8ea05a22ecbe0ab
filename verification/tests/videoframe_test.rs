use hdmifiletransporter::{Color, Instruction, VideoFrame};

#[test]
fn test_new_create_image_size() {
    let result = VideoFrame::new(100, 50);
    assert_eq!(result.width, 100);
    assert_eq!(result.height, 50);
}

#[test]
fn test_new_create_image_mat_size() {
    let result = VideoFrame::new(100, 50);
    assert_eq!(result.pixels.len(), 100 * 50);
    assert_eq!(result.width, 100);
    assert_eq!(result.height, 50);
}

#[test]
fn test_write_image_color() {
    let mut videoframe = VideoFrame::new(100, 50);
    videoframe.write(10, 20, 30, 0, 0, 1);
    let pixel = videoframe.read_coordinate_color(0, 0);
    assert_eq!(pixel.b, 30);
    assert_eq!(pixel.g, 20);
    assert_eq!(pixel.r, 10);
}

#[test]
fn test_read_coordinate_color() {
    let mut videoframe = VideoFrame::new(100, 50);
    videoframe.write(10, 20, 30, 0, 0, 1);
    let color = videoframe.read_coordinate_color(0, 0);
    assert_eq!(color.b, 30);
    assert_eq!(color.g, 20);
    assert_eq!(color.r, 10);
}

#[test]
fn test_from_define_size() {
    let pixels = vec![Color { r: 0, g: 0, b: 0 }; 200 * 100];
    let videoframe = VideoFrame::from(pixels, 200, 100, 1);
    let unwrapped = videoframe.unwrap();
    assert_eq!(unwrapped.width, 200);
    assert_eq!(unwrapped.height, 100);
}

#[test]
fn test_from_rejects_misaligned_height() {
    let pixels = vec![Color { r: 0, g: 0, b: 0 }; 200 * 101];
    let videoframe = VideoFrame::from(pixels, 200, 101, 2);
    assert!(videoframe.is_err());
}

#[test]
fn test_write_image_instruction() {
    let mut videoframe = VideoFrame::new(100, 100);
    let mut instruction = Instruction {
        relevant_byte_count_in_64bits: [false; 64],
    };
    instruction.relevant_byte_count_in_64bits[63] = true;

    videoframe.write_instruction(&instruction, 1);
    let mut color: Color;
    for i in 0..3 {
        color = videoframe.read_coordinate_color(i, 0);
        assert_eq!(color.b, 0);
        assert_eq!(color.g, 0);
        assert_eq!(color.r, 0);
    }
    color = videoframe.read_coordinate_color(63, 0); // The last bit of instruction is true
    assert_eq!(color.b, 255);
    assert_eq!(color.g, 255);
    assert_eq!(color.r, 255);
}

#[test]
fn test_write_image_pagination_with_instruction() {
    let mut videoframe = VideoFrame::new(200, 100);
    let mut instruction = Instruction {
        relevant_byte_count_in_64bits: [false; 64],
    };
    instruction.relevant_byte_count_in_64bits[63] = true;

    let (x, y) = videoframe.write_instruction(&instruction, 1);
    videoframe.write_pagination(x, y, &1, 1);
    let mut color: Color;
    for i in 0..3 {
        color = videoframe.read_coordinate_color(i, 0);
        assert_eq!(color.b, 0);
        assert_eq!(color.g, 0);
        assert_eq!(color.r, 0);
    }
    color = videoframe.read_coordinate_color(63, 0); // The last bit of instruction is true
    assert_eq!(color.b, 255);
    assert_eq!(color.g, 255);
    assert_eq!(color.r, 255);
    color = videoframe.read_coordinate_color(64, 0); // The first bit of pagination
    assert_eq!(color.b, 0);
    assert_eq!(color.g, 0);
    assert_eq!(color.r, 0);
    color = videoframe.read_coordinate_color(126, 0); // The bit before last of pagination
    assert_eq!(color.b, 0);
    assert_eq!(color.g, 0);
    assert_eq!(color.r, 0);
    color = videoframe.read_coordinate_color(127, 0); // The last bit of pagination
    assert_eq!(color.b, 255);
    assert_eq!(color.g, 255);
    assert_eq!(color.r, 255);
}

#[test]
fn test_write_image_pagination2_with_instruction() {
    let mut videoframe = VideoFrame::new(200, 100);
    let mut instruction = Instruction {
        relevant_byte_count_in_64bits: [false; 64],
    };
    instruction.relevant_byte_count_in_64bits[63] = true;

    let (x, y) = videoframe.write_instruction(&instruction, 1);
    videoframe.write_pagination(x, y, &3, 1);
    let mut color: Color;
    for i in 0..3 {
        color = videoframe.read_coordinate_color(i, 0);
        assert_eq!(color.b, 0);
        assert_eq!(color.g, 0);
        assert_eq!(color.r, 0);
    }
    color = videoframe.read_coordinate_color(63, 0); // The last bit of instruction is true
    assert_eq!(color.b, 255);
    assert_eq!(color.g, 255);
    assert_eq!(color.r, 255);
    color = videoframe.read_coordinate_color(64, 0); // The first bit of pagination
    assert_eq!(color.b, 0);
    assert_eq!(color.g, 0);
    assert_eq!(color.r, 0);
    color = videoframe.read_coordinate_color(126, 0); // The bit before last of pagination
    assert_eq!(color.b, 255);
    assert_eq!(color.g, 255);
    assert_eq!(color.r, 255);
    color = videoframe.read_coordinate_color(127, 0); // The last bit of pagination
    assert_eq!(color.b, 255);
    assert_eq!(color.g, 255);
    assert_eq!(color.r, 255);
}

#[test]
fn test_write_image_pagination_without_instruction() {
    let mut videoframe = VideoFrame::new(200, 100);
    let (x, _y) = videoframe.write_pagination(0, 0, &3, 1);
    let mut color: Color;
    for i in 0..61 {
        color = videoframe.read_coordinate_color(i, 0);
        assert_eq!(color.b, 0);
        assert_eq!(color.g, 0);
        assert_eq!(color.r, 0);
    }
    color = videoframe.read_coordinate_color(62, 0); // The bit before last is true
    assert_eq!(color.b, 255);
    assert_eq!(color.g, 255);
    assert_eq!(color.r, 255);
    color = videoframe.read_coordinate_color(63, 0); // The last bit of pagination
    assert_eq!(color.b, 255);
    assert_eq!(color.g, 255);
    assert_eq!(color.r, 255);
    // Check if the x moved
    assert_eq!(x, 64) // (0..63) = Pagination, 64 is the next
}
