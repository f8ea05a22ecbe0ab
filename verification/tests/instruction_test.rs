use hdmifiletransporter::Instruction;

#[test]
fn test_instruction_new_ver_small() {
    let instruction = Instruction::new(1);

    assert_eq!(instruction.relevant_byte_count_in_64bits[63], true);
    assert_eq!(instruction.relevant_byte_count_in_64bits[62], false);
    assert_eq!(instruction.relevant_byte_count_in_64bits[61], false);
    assert_eq!(instruction.relevant_byte_count_in_64bits[60], false);
    assert_eq!(instruction.relevant_byte_count_in_64bits[59], false);
    assert_eq!(instruction.relevant_byte_count_in_64bits[58], false);
    assert_eq!(instruction.relevant_byte_count_in_64bits[57], false);
    assert_eq!(instruction.relevant_byte_count_in_64bits[0], false);
}

#[test]
fn test_instruction_new_small() {
    let instruction = Instruction::new(100); // ...1100100

    assert_eq!(instruction.relevant_byte_count_in_64bits[63], false);
    assert_eq!(instruction.relevant_byte_count_in_64bits[62], false);
    assert_eq!(instruction.relevant_byte_count_in_64bits[61], true);
    assert_eq!(instruction.relevant_byte_count_in_64bits[60], false);
    assert_eq!(instruction.relevant_byte_count_in_64bits[59], false);
    assert_eq!(instruction.relevant_byte_count_in_64bits[58], true);
    assert_eq!(instruction.relevant_byte_count_in_64bits[57], true);
}

#[test]
fn test_instruction_new_large() {
    let instruction = Instruction::new(389657); // ...1011111001000011001

    assert_eq!(instruction.relevant_byte_count_in_64bits[63], true);
    assert_eq!(instruction.relevant_byte_count_in_64bits[62], false);
    assert_eq!(instruction.relevant_byte_count_in_64bits[61], false);
    assert_eq!(instruction.relevant_byte_count_in_64bits[60], true);
    assert_eq!(instruction.relevant_byte_count_in_64bits[59], true);
    assert_eq!(instruction.relevant_byte_count_in_64bits[58], false);
    assert_eq!(instruction.relevant_byte_count_in_64bits[57], false);
    assert_eq!(instruction.relevant_byte_count_in_64bits[56], false);
    assert_eq!(instruction.relevant_byte_count_in_64bits[55], false);
    assert_eq!(instruction.relevant_byte_count_in_64bits[54], true);
    assert_eq!(instruction.relevant_byte_count_in_64bits[53], false);
    assert_eq!(instruction.relevant_byte_count_in_64bits[52], false);
    assert_eq!(instruction.relevant_byte_count_in_64bits[51], true);
    assert_eq!(instruction.relevant_byte_count_in_64bits[50], true);
    assert_eq!(instruction.relevant_byte_count_in_64bits[49], true);
    assert_eq!(instruction.relevant_byte_count_in_64bits[48], true);
    assert_eq!(instruction.relevant_byte_count_in_64bits[47], true);
    assert_eq!(instruction.relevant_byte_count_in_64bits[46], false);
    assert_eq!(instruction.relevant_byte_count_in_64bits[45], true);
    assert_eq!(instruction.relevant_byte_count_in_64bits[44], false);
}

#[test]
fn test_instruction_get_byte() {
    // 00110000 00010111 01100001 00111111 01111000 11011100 10111111 10100010
    // 48 23 97 63 120 220 191 162
    let instruction = Instruction::new(3465345363523452834);
    let byte_0 = instruction.get_byte(0);
    let byte_1 = instruction.get_byte(1);
    let byte_2 = instruction.get_byte(2);
    let byte_3 = instruction.get_byte(3);
    let byte_4 = instruction.get_byte(4);
    let byte_5 = instruction.get_byte(5);
    let byte_6 = instruction.get_byte(6);
    let byte_7 = instruction.get_byte(7);
    assert_eq!(byte_0, 48);
    assert_eq!(byte_1, 23);
    assert_eq!(byte_2, 97);
    assert_eq!(byte_3, 63);
    assert_eq!(byte_4, 120);
    assert_eq!(byte_5, 220);
    assert_eq!(byte_6, 191);
    assert_eq!(byte_7, 162);
}

#[test]
fn test_instruction_get_bytes() {
    let instruction = Instruction::new(3465345363523452834);
    let result = instruction.get_bytes();
    assert_eq!(result[0], 48);
    assert_eq!(result[1], 23);
    assert_eq!(result[2], 97);
    assert_eq!(result[3], 63);
    assert_eq!(result[4], 120);
    assert_eq!(result[5], 220);
    assert_eq!(result[6], 191);
    assert_eq!(result[7], 162);
}

#[test]
fn test_instruction_get_data_size_small() {
    let instruction = Instruction::new(75); // 000000 ... 1001011
    let result = instruction.get_data_size();
    assert_eq!(result, 75)
}

#[test]
fn test_instruction_get_data_size() {
    let instruction = Instruction::new(3465345363523452834);
    let result = instruction.get_data_size();
    assert_eq!(result, 3465345363523452834)
}

#[test]
fn test_instruction_round_trip_edge_values() {
    // The header codec inverts exactly, also at the edges of the range.
    for value in [0u64, 1, 2, 255, 256, 389657, u64::MAX - 1, u64::MAX] {
        assert_eq!(Instruction::new(value).get_data_size(), value);
    }
}
