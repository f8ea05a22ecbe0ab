use vstd::prelude::*;

use crate::bitlogics::{byte_from_bits, get_bit_at64, get_byte_from_bits, u64_bit};
use vstd::arithmetic::div_mod::{lemma_mod_breakdown, lemma_small_mod};
use vstd::arithmetic::power2::{lemma2_to64, lemma2_to64_rest, lemma_pow2_pos, lemma_pow2_unfold, pow2};
use vstd::bits::{lemma_u64_pow2_no_overflow, lemma_u64_shl_is_mul, lemma_u64_shr_is_div};

verus! {

/// The 64 bits of a 64-bit value, most significant bit first.
pub open spec fn u64_bits_msb(value: u64) -> Seq<bool> {
    Seq::new(64, |i: int| u64_bit(value, (63 - i) as u64))
}

/// The value that a bit sequence encodes, most significant bit first.
pub open spec fn bits_value(bits: Seq<bool>) -> nat
    decreases bits.len(),
{
    if bits.len() == 0 {
        0
    } else {
        bits_value(bits.drop_last()) * 2 + (if bits.last() {
            1nat
        } else {
            0nat
        })
    }
}

pub proof fn lemma_bits_value_bound(bits: Seq<bool>)
    ensures
        bits_value(bits) < pow2(bits.len()),
    decreases bits.len(),
{
    if bits.len() == 0 {
        lemma2_to64();
    } else {
        lemma_bits_value_bound(bits.drop_last());
        lemma_pow2_unfold(bits.len());
    }
}

/// Prepending a bit adds its weight to the encoded value.
pub proof fn lemma_bits_value_prepend(b: bool, tail: Seq<bool>)
    ensures
        bits_value(seq![b] + tail) == (if b {
            pow2(tail.len())
        } else {
            0nat
        }) + bits_value(tail),
    decreases tail.len(),
{
    let s = seq![b] + tail;
    if tail.len() == 0 {
        assert(s.len() == 1);
        assert(s.last() == b);
        assert(s.drop_last() =~= Seq::<bool>::empty());
        lemma2_to64();
        assert(bits_value(s.drop_last()) == 0);
        assert(bits_value(s) == (if b {
            1nat
        } else {
            0nat
        }));
        assert(pow2(0) == 1);
        assert(bits_value(tail) == 0);
    } else {
        assert(s.drop_last() =~= seq![b] + tail.drop_last());
        assert(s.last() == tail.last());
        lemma_bits_value_prepend(b, tail.drop_last());
        lemma_pow2_unfold(tail.len());
        assert(bits_value(s) == bits_value(seq![b] + tail.drop_last()) * 2 + (if tail.last() {
            1nat
        } else {
            0nat
        }));
        assert(bits_value(tail) == bits_value(tail.drop_last()) * 2 + (if tail.last() {
            1nat
        } else {
            0nat
        }));
    }
}

/// The low `n` bits of a value, most significant first, encode the value
/// modulo 2^n.
proof fn lemma_bits_value_of_u64(value: u64, n: nat)
    requires
        n <= 64,
    ensures
        bits_value(Seq::new(n, |i: int| u64_bit(value, (n - 1 - i) as u64))) == value as nat
            % pow2(n),
    decreases n,
{
    let s = Seq::new(n, |i: int| u64_bit(value, (n - 1 - i) as u64));
    if n == 0 {
        lemma2_to64();
        assert(value as nat % pow2(0) == 0);
    } else {
        let half = value >> 1u64;
        let s2 = Seq::new((n - 1) as nat, |i: int| u64_bit(half, (n - 2 - i) as u64));
        assert forall|i: int| 0 <= i < n - 1 implies s[i] == s2[i] by {
            let j = (n - 2 - i) as u64;
            assert((half & (1u64 << j) != 0) == (value & (1u64 << (j + 1) as u64) != 0))
                by (bit_vector)
                requires
                    j < 63u64,
                    half == value >> 1u64,
            ;
            assert((n - 1 - i) as u64 == (j + 1) as u64);
        }
        assert(s.drop_last() =~= s2);
        assert(s.last() == u64_bit(value, 0));
        lemma_bits_value_of_u64(half, (n - 1) as nat);
        assert(half == value as nat / 2) by {
            lemma_u64_shr_is_div(value, 1u64);
            lemma2_to64();
        }
        assert((value & (1u64 << 0u64) != 0) == (value % 2u64 == 1)) by (bit_vector);
        lemma_pow2_pos((n - 1) as nat);
        lemma_mod_breakdown(value as int, 2, pow2((n - 1) as nat) as int);
        lemma_pow2_unfold(n);
    }
}

/// Encoding a 64-bit value into 64 bits, most significant first, and reading
/// the bits back yields the same value.
pub proof fn lemma_header_round_trip(value: u64)
    ensures
        u64_bits_msb(value).len() == 64,
        bits_value(u64_bits_msb(value)) == value,
{
    lemma_bits_value_of_u64(value, 64);
    assert(u64_bits_msb(value) =~= Seq::new(64nat, |i: int| u64_bit(value, (64 - 1 - i) as u64)));
    lemma2_to64_rest();
    lemma_small_mod(value as nat, pow2(64));
}

/// Information to pass from the injection to the extraction.
///
/// The same 64-cell codec serves two headers: the Instruction carries the
/// number of payload bytes (written once, on the sentinel frame), and the
/// Pagination carries a zero-based page index (written once per data frame).
#[derive(Debug, Clone, Copy)]
pub struct Instruction {
    /// Bit 0 is the most significant bit (most left visually),
    /// bit 63 the least significant.
    pub relevant_byte_count_in_64bits: [bool; 64],
}

impl View for Instruction {
    type V = Seq<bool>;

    open spec fn view(&self) -> Seq<bool> {
        self.relevant_byte_count_in_64bits@
    }
}

impl Instruction {
    /// Create a new instruction carrying `byte_len`, the number of payload
    /// bytes of the content.
    pub fn new(byte_len: u64) -> (instruction: Instruction)
        ensures
            instruction@ == u64_bits_msb(byte_len),
    {
        let mut relevant_byte: [bool; 64] = [false;64];
        let mut i: usize = 0;
        while i < 64
            invariant
                i <= 64,
                forall|j: int| 0 <= j < i ==> relevant_byte@[j] == u64_bit(byte_len, (63 - j) as u64),
            decreases 64 - i,
        {
            relevant_byte[i] = get_bit_at64(byte_len, (64 - i - 1) as u8);
            i = i + 1;
        }
        proof {
            assert(relevant_byte@ =~= u64_bits_msb(byte_len));
        }
        Instruction { relevant_byte_count_in_64bits: relevant_byte }
    }

    /// From the bits saved, get one byte by position.
    /// Position 0 is the most significant byte (most left visually),
    /// position 7 the least significant.
    pub fn get_byte(&self, visual_position_from_left: u8) -> (byte: u8)
        requires
            visual_position_from_left < 8,
        ensures
            byte == byte_from_bits(
                self@.subrange(
                    visual_position_from_left as int * 8,
                    visual_position_from_left as int * 8 + 8,
                ),
            ),
    {
        let mut slice_bits: [bool; 8] = [false;8];
        let start_position: usize = visual_position_from_left as usize * 8;
        let mut j: usize = 0;
        while j < 8
            invariant
                j <= 8,
                start_position == visual_position_from_left as int * 8,
                visual_position_from_left < 8,
                forall|t: int| 0 <= t < j ==> slice_bits@[t] == self@[start_position + t],
            decreases 8 - j,
        {
            slice_bits[j] = self.relevant_byte_count_in_64bits[start_position + j];
            j = j + 1;
        }
        proof {
            assert(slice_bits@ =~= self@.subrange(
                visual_position_from_left as int * 8,
                visual_position_from_left as int * 8 + 8,
            ));
        }
        get_byte_from_bits(slice_bits)
    }

    /// The eight bytes of the header, most significant first.
    pub fn get_bytes(&self) -> (result: [u8; 8])
        ensures
            forall|i: int|
                0 <= i < 8 ==> result@[i] == byte_from_bits(self@.subrange(i * 8, i * 8 + 8)),
    {
        let mut result: [u8; 8] = [0;8];
        let mut i: usize = 0;
        while i < 8
            invariant
                i <= 8,
                forall|t: int|
                    0 <= t < i ==> result@[t] == byte_from_bits(self@.subrange(t * 8, t * 8 + 8)),
            decreases 8 - i,
        {
            result[i] = self.get_byte(i as u8);
            i = i + 1;
        }
        result
    }

    /// Get the size back in number format: the value the 64 bits encode,
    /// most significant bit first.
    pub fn get_data_size(&self) -> (result: u64)
        ensures
            result == bits_value(self@),
    {
        let mut result: u64 = 0;
        let mut i: usize = 0;
        proof {
            assert(self@.skip(64int) =~= Seq::<bool>::empty());
            lemma2_to64();
        }
        while i < 64
            invariant
                i <= 64,
                self@.len() == 64,
                result == bits_value(self@.skip(64 - i as int)),
                result < pow2(i as nat),
            decreases 64 - i,
        {
            let position: usize = 64 - i - 1;
            let bi: u64 = if self.relevant_byte_count_in_64bits[position] {
                1
            } else {
                0
            };
            let sh: u64 = i as u64;
            let ghost prev: u64 = result;
            proof {
                lemma_u64_pow2_no_overflow(i as nat);
                lemma_u64_shl_is_mul(1u64, sh);
                lemma_u64_shl_is_mul(bi, sh);
                assert(prev & !(1u64 << sh) | (bi << sh) == prev + (bi << sh) && prev + (bi << sh)
                    < 2 * (1u64 << sh)) by (bit_vector)
                    requires
                        sh < 64u64,
                        prev < (1u64 << sh),
                        bi <= 1u64,
                ;
            }
            result = result & !(1u64 << sh) | (bi << sh);
            proof {
                let b = self@[63 - i as int];
                let s_prev = self@.skip(64 - i as int);
                let s_next = self@.skip(64 - (i as int) - 1);
                assert(s_next =~= seq![b] + s_prev);
                lemma_bits_value_prepend(b, s_prev);
                lemma_pow2_unfold((i + 1) as nat);
            }
            i = i + 1;
        }
        proof {
            assert(self@.skip(0int) =~= self@);
        }
        result
    }
}

} // verus!
