use hdmifiletransporter::{
    get_bit_at, get_bit_at64, get_bit_from_rgb, get_byte_from_bits, get_rgb_for_bit, mutate_byte,
};

#[test]
fn test_get_bit_at() {
    let value = 54; // 0011 0110
    assert_eq!(get_bit_at(value, 7), false);
    assert_eq!(get_bit_at(value, 6), false);
    assert_eq!(get_bit_at(value, 5), true);
    assert_eq!(get_bit_at(value, 4), true);
    assert_eq!(get_bit_at(value, 3), false);
    assert_eq!(get_bit_at(value, 2), true);
    assert_eq!(get_bit_at(value, 1), true);
    assert_eq!(get_bit_at(value, 0), false);
}

#[test]
fn test_get_bit_at64() {
    let value = 54; // 0011 0110
    assert_eq!(get_bit_at64(value, 7), false);
    assert_eq!(get_bit_at64(value, 6), false);
    assert_eq!(get_bit_at64(value, 5), true);
    assert_eq!(get_bit_at64(value, 4), true);
    assert_eq!(get_bit_at64(value, 3), false);
    assert_eq!(get_bit_at64(value, 2), true);
    assert_eq!(get_bit_at64(value, 1), true);
    assert_eq!(get_bit_at64(value, 0), false);
}

#[test]
fn test_get_rgb_for_bit_true() {
    let value = get_rgb_for_bit(true);
    assert_eq!(value.0, 255);
    assert_eq!(value.1, 255);
    assert_eq!(value.2, 255);
}

#[test]
fn test_get_rgb_for_bit_false() {
    let value = get_rgb_for_bit(false);
    assert_eq!(value.0, 0);
    assert_eq!(value.1, 0);
    assert_eq!(value.2, 0);
}

#[test]
fn test_get_bit_from_rgb_all_0() {
    let bit = get_bit_from_rgb(&vec![0, 0, 0]);
    assert_eq!(bit, false);
}

#[test]
fn test_get_bit_from_rgb_all_255() {
    let bit = get_bit_from_rgb(&vec![255, 255, 255]);
    assert_eq!(bit, true);
}

#[test]
fn test_get_bit_from_rgb_more_than_three() {
    let bit = get_bit_from_rgb(&vec![255, 255, 255, 0, 0, 0, 0, 0]);
    assert_eq!(bit, false);
}

#[test]
fn test_mutate_byte_0_bit_true() {
    let mut input: u8 = 0b0000_0000;
    mutate_byte(&mut input, true, 0);
    assert_eq!(input, 0b0000_0001)
}

#[test]
fn test_mutate_byte_1_bit_true() {
    let mut input: u8 = 0b0000_0000;
    mutate_byte(&mut input, true, 1);
    assert_eq!(input, 0b0000_0010)
}

#[test]
fn test_mutate_byte_2_bit_false() {
    let mut input: u8 = 0b0000_0010;
    mutate_byte(&mut input, false, 1);
    assert_eq!(input, 0b0000_0000)
}

#[test]
fn test_mutate_byte_many_mutate() {
    let mut input: u8 = 0b0000_0000;
    let expected: u8 = 0b0011_1011;
    mutate_byte(&mut input, false, 7);
    mutate_byte(&mut input, false, 6);
    mutate_byte(&mut input, true, 5);
    mutate_byte(&mut input, true, 4);
    mutate_byte(&mut input, true, 3);
    mutate_byte(&mut input, false, 2);
    mutate_byte(&mut input, true, 1);
    mutate_byte(&mut input, true, 0);
    assert_eq!(input, expected)
}

#[test]
fn test_get_bytes_from_bits_1() {
    // 155 = 10011011
    let input: [bool; 8] = [true, false, false, true, true, false, true, true];
    let output = get_byte_from_bits(input);
    assert_eq!(output, 155)
}
