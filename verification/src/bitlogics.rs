use vstd::prelude::*;

verus! {

/// Bit `n` (0 = least significant) of an 8-bit value.
pub open spec fn u8_bit(input: u8, n: u8) -> bool {
    input & (1u8 << n) != 0
}

/// Bit `n` (0 = least significant) of a 64-bit value.
pub open spec fn u64_bit(input: u64, n: u64) -> bool {
    input & (1u64 << n) != 0
}

/// Sum of a sequence of channel samples.
pub open spec fn sample_sum(samples: Seq<u8>) -> int
    decreases samples.len(),
{
    if samples.len() == 0 {
        0
    } else {
        sample_sum(samples.drop_last()) + samples.last()
    }
}

/// The byte whose most significant bit is `bits[0]` and least significant bit
/// is `bits[7]`.
pub open spec fn byte_from_bits(bits: Seq<bool>) -> u8 {
    ((if bits[0] { 128int } else { 0int }) + (if bits[1] { 64int } else { 0int })
        + (if bits[2] { 32int } else { 0int }) + (if bits[3] { 16int } else { 0int })
        + (if bits[4] { 8int } else { 0int }) + (if bits[5] { 4int } else { 0int })
        + (if bits[6] { 2int } else { 0int }) + (if bits[7] { 1int } else { 0int })) as u8
}

/// Get a bit value of an unsigned 64-bit number.
pub fn get_bit_at64(input: u64, n: u8) -> (bit: bool)
    requires
        n < 64,
    ensures
        bit == u64_bit(input, n as u64),
{
    input & (1u64 << n) != 0
}

/// Get a bit value of an unsigned 8-bit number.
pub fn get_bit_at(input: u8, n: u8) -> (bit: bool)
    requires
        n < 8,
    ensures
        bit == u8_bit(input, n),
{
    input & (1u8 << n) != 0
}

/// Get the color that carries a bit: white for true, black for false.
pub fn get_rgb_for_bit(bit: bool) -> (rgb: (u8, u8, u8))
    ensures
        rgb == (if bit {
            (255u8, 255u8, 255u8)
        } else {
            (0u8, 0u8, 0u8)
        }),
{
    if bit {
        (255, 255, 255)
    } else {
        (0, 0, 0)
    }
}

/// Get the bit value back from channel samples. The samples do not need to be
/// perfect white or black: the bit is true when their sum is at least half of
/// the theoretical maximum.
pub fn get_bit_from_rgb(rgb: &Vec<u8>) -> (bit: bool)
    requires
        255 * rgb@.len() <= u32::MAX,
    ensures
        bit == (sample_sum(rgb@) >= 255 * rgb@.len() / 2),
{
    let mut sum: u32 = 0;
    let mut i: usize = 0;
    while i < rgb.len()
        invariant
            i <= rgb@.len(),
            255 * rgb@.len() <= u32::MAX,
            sum == sample_sum(rgb@.take(i as int)),
            sum <= 255 * i,
        decreases rgb@.len() - i,
    {
        proof {
            assert(rgb@.take(i + 1).drop_last() =~= rgb@.take(i as int));
            assert(rgb@.take(i + 1).last() == rgb@[i as int]);
        }
        sum = sum + rgb[i] as u32;
        i = i + 1;
    }
    proof {
        assert(rgb@.take(rgb@.len() as int) =~= rgb@);
    }
    sum >= 255_u32 * (rgb.len() as u32) / 2
}

/// Change one bit of an existing byte, leaving the other bits as they are.
pub fn mutate_byte(byte_val: &mut u8, bit_val: bool, position: u8)
    requires
        position < 8,
    ensures
        forall|n: u8|
            n < 8 ==> u8_bit(*final(byte_val), n) == (if n == position {
                bit_val
            } else {
                u8_bit(*old(byte_val), n)
            }),
{
    let ghost before: u8 = *byte_val;
    let bi: u8 = if bit_val {
        1
    } else {
        0
    };
    *byte_val = *byte_val & !(1 << position) | (bi << position);
    proof {
        let after = *byte_val;
        assert(forall|n: u8|
            n < 8 ==> ((after & (1u8 << n) != 0) == (if n == position {
                bi == 1
            } else {
                before & (1u8 << n) != 0
            }))) by (bit_vector)
            requires
                position < 8,
                bi <= 1,
                after == before & !(1u8 << position) | (bi << position),
        ;
    }
}

/// Get a byte from a list of bits, index 0 being the most significant bit.
pub fn get_byte_from_bits(bits: [bool; 8]) -> (result: u8)
    ensures
        result == byte_from_bits(bits@),
{
    let mut result: u8 = 0;
    if bits[0] {
        result = result + 128;
    }
    if bits[1] {
        result = result + 64;
    }
    if bits[2] {
        result = result + 32;
    }
    if bits[3] {
        result = result + 16;
    }
    if bits[4] {
        result = result + 8;
    }
    if bits[5] {
        result = result + 4;
    }
    if bits[6] {
        result = result + 2;
    }
    if bits[7] {
        result = result + 1;
    }
    result
}

/// A byte taken apart into its bits, most significant first, comes back
/// together as the same byte.
pub proof fn lemma_byte_bits_round_trip(byte: u8)
    ensures
        byte_from_bits(Seq::new(8, |i: int| u8_bit(byte, (7 - i) as u8))) == byte,
{
    let bits = Seq::new(8, |i: int| u8_bit(byte, (7 - i) as u8));
    assert(byte == (if byte & (1u8 << 7) != 0 { 128int } else { 0int })
        + (if byte & (1u8 << 6) != 0 { 64int } else { 0int })
        + (if byte & (1u8 << 5) != 0 { 32int } else { 0int })
        + (if byte & (1u8 << 4) != 0 { 16int } else { 0int })
        + (if byte & (1u8 << 3) != 0 { 8int } else { 0int })
        + (if byte & (1u8 << 2) != 0 { 4int } else { 0int })
        + (if byte & (1u8 << 1) != 0 { 2int } else { 0int })
        + (if byte & (1u8 << 0) != 0 { 1int } else { 0int })) by (bit_vector);
}

} // verus!
