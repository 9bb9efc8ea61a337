//! Bits, bit fields and byte order of 32-bit words.
use vstd::arithmetic::power2;
use vstd::prelude::*;

verus! {

/// Whether bit `n` of `v` is set.
pub open spec fn bit(v: u32, n: u32) -> bool {
    (v >> n) & 1 == 1
}

/// 1 for `true`, 0 for `false`.
pub open spec fn digit(b: bool) -> int {
    if b {
        1
    } else {
        0
    }
}

/// Testing a word against a one-bit mask tests that bit.
pub proof fn lemma_mask_tests_bit(v: u32, n: u32)
    requires
        n < 32,
    ensures
        (v & (1u32 << n) != 0) == bit(v, n),
{
    assert((v & (1u32 << n) != 0) == ((v >> n) & 1 == 1)) by (bit_vector)
        requires
            n < 32,
    ;
}

/// Bit `n` of a word is digit `n` of its binary form.
pub(crate) proof fn lemma_bit_is_digit(v: u32, n: u32)
    requires
        n < 32,
    ensures
        bit(v, n) == (v as int / power2::pow2(n as nat) as int % 2 == 1),
{
    vstd::bits::lemma_u32_shr_is_div(v, n);
    let x = v >> n;
    assert(x & 1 == x % 2) by (bit_vector);
}

/// The digits of a word that say what a card is.
pub(crate) proof fn lemma_low_and_high_bits(v: u32)
    ensures
        bit(v, 0) == (v % 2 == 1),
        bit(v, 2) == (v / 4 % 2 == 1),
        bit(v, 30) == (v / 0x4000_0000 % 2 == 1),
        bit(v, 31) == (v >= 0x8000_0000),
{
    power2::lemma2_to64();
    lemma_bit_is_digit(v, 0);
    lemma_bit_is_digit(v, 2);
    lemma_bit_is_digit(v, 30);
    lemma_bit_is_digit(v, 31);
}

/// Whether bit `n` of `v` is set.
pub fn test_bit(v: u32, n: u32) -> (b: bool)
    requires
        n < 32,
    ensures
        b == bit(v, n),
{
    proof {
        lemma_mask_tests_bit(v, n);
    }
    v & (1u32 << n) != 0
}

/// The four bytes of a word, most significant first.
pub open spec fn be_bytes_of(v: u32) -> Seq<u8> {
    seq![
        (v / 0x100_0000) as u8,
        (v / 0x1_0000 % 0x100) as u8,
        (v / 0x100 % 0x100) as u8,
        (v % 0x100) as u8,
    ]
}

/// The word whose bytes are `b`, most significant first.
pub open spec fn be_value(b: Seq<u8>) -> int {
    b[0] * 0x100_0000 + b[1] * 0x1_0000 + b[2] * 0x100 + b[3]
}

/// Splits a word into bytes, most significant first.
pub fn to_be_bytes(v: u32) -> (b: [u8; 4])
    ensures
        b@ == be_bytes_of(v),
        be_value(b@) == v,
{
    assert((v >> 24) == v / 0x100_0000 && (v >> 24) < 0x100 && ((v >> 16) & 0xFF) == v / 0x1_0000
        % 0x100 && ((v >> 8) & 0xFF) == v / 0x100 % 0x100 && (v & 0xFF) == v % 0x100) by (bit_vector);
    let b: [u8; 4] = [
        (v >> 24) as u8,
        ((v >> 16) & 0xFF) as u8,
        ((v >> 8) & 0xFF) as u8,
        (v & 0xFF) as u8,
    ];
    assert(b@ =~= be_bytes_of(v));
    b
}

/// Joins four bytes into a word, most significant first.
pub fn from_be_bytes(b: [u8; 4]) -> (v: u32)
    ensures
        v == be_value(b@),
{
    (b[0] as u32) * 0x100_0000 + (b[1] as u32) * 0x1_0000 + (b[2] as u32) * 0x100 + (b[3] as u32)
}

/// Splitting a word and joining the bytes gives the word back.
pub proof fn be_value_undoes_be_bytes(v: u32)
    ensures
        be_bytes_of(v).len() == 4,
        be_value(be_bytes_of(v)) == v,
{
}

} // verus!
