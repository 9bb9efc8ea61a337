//! CRC-7 of command frames: division of bit polynomials by `x^7 + x^3 + 1`.
//!
//! A polynomial over the two-element field is a sequence of coefficients,
//! highest power first.
use vstd::prelude::*;

verus! {

/// Coefficient `i` of a byte read as a polynomial, highest power first.
pub open spec fn byte_bit(b: u8, i: int) -> bool {
    (b >> ((7 - i) as u8)) & 1 == 1
}

/// The eight coefficients of a byte.
pub open spec fn byte_bits(b: u8) -> Seq<bool> {
    Seq::new(8, |i: int| byte_bit(b, i))
}

/// The coefficients of a byte string, first byte first.
pub open spec fn message_bits(bytes: Seq<u8>) -> Seq<bool>
    decreases bytes.len(),
{
    if bytes.len() == 0 {
        Seq::empty()
    } else {
        byte_bits(bytes[0]) + message_bits(bytes.skip(1))
    }
}

/// The zero polynomial, written with seven coefficients.
pub open spec fn zeros7() -> Seq<bool> {
    Seq::new(7, |i: int| false)
}

/// Remainder of `p` divided by `x^7 + x^3 + 1`, by long division.
///
/// A leading coefficient that is set is cancelled by subtracting the divisor
/// aligned with it, which flips the coefficients three and zero powers above
/// the divisor's lowest.
pub open spec fn poly_rem(p: Seq<bool>) -> Seq<bool>
    decreases p.len(),
{
    if p.len() <= 7 {
        p
    } else {
        let q = p.skip(1);
        if p[0] {
            poly_rem(q.update(3, !q[3]).update(6, !q[6]))
        } else {
            poly_rem(q)
        }
    }
}

/// CRC-7 of a bit string: the remainder of its polynomial times `x^7`.
pub open spec fn crc7_bits(message: Seq<bool>) -> Seq<bool> {
    poly_rem(message + zeros7())
}

/// Number whose binary digits are `bits`, most significant first.
pub open spec fn bits_value(bits: Seq<bool>) -> int
    decreases bits.len(),
{
    if bits.len() == 0 {
        0
    } else {
        2 * bits_value(bits.drop_last()) + if bits.last() {
            1int
        } else {
            0int
        }
    }
}

/// The seven coefficients held in the low bits of a CRC register.
pub open spec fn register_bits(crc: u8) -> Seq<bool> {
    Seq::new(7, |i: int| byte_bit(crc, i + 1))
}

/// `p` with `r` added to its seven leading coefficients.
pub open spec fn add_leading(r: Seq<bool>, p: Seq<bool>) -> Seq<bool> {
    Seq::new(p.len(), |i: int| if i < 7 { r[i] != p[i] } else { p[i] })
}

/// Runs one byte through the CRC-7 register.
///
/// Whatever follows, the division that has the register on top of the byte
/// and what follows has the same remainder as the one that has the new
/// register on top of what follows.
pub fn crc7_update(crc: u8, byte: u8) -> (r: u8)
    ensures
        forall|rest: Seq<bool>|
            rest.len() >= 7 ==> poly_rem(
                #[trigger] add_leading(register_bits(crc), byte_bits(byte) + rest),
            ) == poly_rem(add_leading(register_bits(r), rest)),
{
    let mut reg: u8 = crc;
    let mut data: u8 = byte;
    let mut j: u8 = 0;
    proof {
        assert forall|rest: Seq<bool>| rest.len() >= 7 implies poly_rem(
            add_leading(register_bits(crc), byte_bits(byte) + rest),
        ) == poly_rem(#[trigger] add_leading(register_bits(reg), byte_bits(byte).skip(0) + rest)) by {
            assert(byte_bits(byte).skip(0) =~= byte_bits(byte));
        }
        assert(byte == byte << 0u8) by (bit_vector);
    }
    while j < 8
        invariant
            j <= 8,
            data == byte << j || j == 8,
            forall|rest: Seq<bool>|
                rest.len() >= 7 ==> poly_rem(
                    add_leading(register_bits(crc), byte_bits(byte) + rest),
                ) == poly_rem(
                    #[trigger] add_leading(
                        register_bits(reg),
                        byte_bits(byte).skip(j as int) + rest,
                    ),
                ),
        decreases 8 - j,
    {
        let ghost before = reg;
        let shifted: u8 = reg << 1;
        let lead: bool = (shifted ^ data) & 0x80 != 0;
        reg = if lead {
            shifted ^ 0x89
        } else {
            shifted
        };
        proof {
            lemma_register_step(before, byte, j, reg, lead);
            assert forall|rest: Seq<bool>| rest.len() >= 7 implies poly_rem(
                add_leading(register_bits(crc), byte_bits(byte) + rest),
            ) == poly_rem(
                #[trigger] add_leading(register_bits(reg), byte_bits(byte).skip(j + 1) + rest),
            ) by {
                let p = byte_bits(byte).skip(j as int) + rest;
                assert(p.skip(1) =~= byte_bits(byte).skip(j + 1) + rest);
                lemma_division_step(register_bits(before), register_bits(reg), p);
            }
            if j < 7 {
                let k = (j + 1) as u8;
                assert((byte << j) << 1u8 == byte << k) by (bit_vector)
                    requires
                        j < 7,
                        k == j + 1,
                ;
            }
        }
        data = data << 1;
        j = j + 1;
    }
    proof {
        assert forall|rest: Seq<bool>| rest.len() >= 7 implies poly_rem(
            #[trigger] add_leading(register_bits(crc), byte_bits(byte) + rest),
        ) == poly_rem(add_leading(register_bits(reg), rest)) by {
            assert(byte_bits(byte).skip(8) + rest =~= rest);
        }
    }
    reg
}

/// One shift of the register, coefficient by coefficient.
proof fn lemma_register_step(before: u8, byte: u8, j: u8, after: u8, lead: bool)
    requires
        j < 8,
        lead == (((before << 1) ^ (byte << j)) & 0x80 != 0),
        after == (if lead {
            (before << 1) ^ 0x89
        } else {
            before << 1
        }),
    ensures
        lead == (register_bits(before)[0] != byte_bits(byte)[j as int]),
        forall|i: int|
            0 <= i < 7 ==> #[trigger] register_bits(after)[i] == ((if i < 6 {
                register_bits(before)[i + 1]
            } else {
                false
            }) != (lead && (i == 3 || i == 6))),
{
    let k = (7 - j) as u8;
    assert(lead == (((before >> 6) & 1 == 1) != ((byte >> k) & 1 == 1))) by (bit_vector)
        requires
            j < 8,
            k == 7 - j,
            lead == (((before << 1) ^ (byte << j)) & 0x80 != 0),
    ;
    assert(((after >> 6) & 1 == 1) == ((before >> 5) & 1 == 1) && ((after >> 5) & 1 == 1) == ((
    before >> 4) & 1 == 1) && ((after >> 4) & 1 == 1) == ((before >> 3) & 1 == 1) && ((after >> 3)
        & 1 == 1) == (((before >> 2) & 1 == 1) != lead) && ((after >> 2) & 1 == 1) == ((before
        >> 1) & 1 == 1) && ((after >> 1) & 1 == 1) == ((before >> 0) & 1 == 1) && ((after >> 0)
        & 1 == 1) == lead) by (bit_vector)
        requires
            after == (if lead {
                (before << 1) ^ 0x89
            } else {
                before << 1
            }),
    ;
}

/// One step of the long division, seen through the register.
proof fn lemma_division_step(before: Seq<bool>, after: Seq<bool>, p: Seq<bool>)
    requires
        before.len() == 7,
        after.len() == 7,
        p.len() >= 8,
        forall|i: int|
            0 <= i < 7 ==> #[trigger] after[i] == ((if i < 6 {
                before[i + 1]
            } else {
                false
            }) != ((before[0] != p[0]) && (i == 3 || i == 6))),
    ensures
        poly_rem(add_leading(before, p)) == poly_rem(add_leading(after, p.skip(1))),
{
    let w = add_leading(before, p);
    let q = w.skip(1);
    let next = add_leading(after, p.skip(1));
    if w[0] {
        assert(q.update(3, !q[3]).update(6, !q[6]) =~= next);
    } else {
        assert(q =~= next);
    }
}

/// The register of a fresh CRC holds the zero polynomial.
proof fn lemma_zero_register()
    ensures
        register_bits(0) =~= zeros7(),
{
    assert forall|i: int| 0 <= i < 7 implies #[trigger] register_bits(0)[i] == false by {
        let k = (6 - i) as u8;
        assert((0u8 >> k) & 1 == 0) by (bit_vector);
    }
}

/// Reads a register as a number.
pub(crate) proof fn lemma_register_value(crc: u8)
    ensures
        bits_value(register_bits(crc)) == crc % 128,
{
    reveal_with_fuel(bits_value, 8);
    let r = register_bits(crc);
    let r6 = r.drop_last();
    let r5 = r6.drop_last();
    let r4 = r5.drop_last();
    let r3 = r4.drop_last();
    let r2 = r3.drop_last();
    let r1 = r2.drop_last();
    assert(r1.drop_last().len() == 0);
    let b = |k: u8| -> int {
        if (crc >> k) & 1 == 1 { 1int } else { 0int }
    };
    assert(bits_value(r) == 64 * b(6) + 32 * b(5) + 16 * b(4) + 8 * b(3) + 4 * b(2) + 2 * b(1) + b(0));
    assert(crc % 128 == 64 * ((crc >> 6) & 1) + 32 * ((crc >> 5) & 1) + 16 * ((crc >> 4) & 1) + 8 * (
    (crc >> 3) & 1) + 4 * ((crc >> 2) & 1) + 2 * ((crc >> 1) & 1) + ((crc >> 0) & 1)) by (bit_vector);
    assert forall|k: u8| k < 8 implies (#[trigger] (crc >> k)) & 1 == 0 || (crc >> k) & 1 == 1 by {
        assert((crc >> k) & 1 == 0 || (crc >> k) & 1 == 1) by (bit_vector);
    }
}

/// Seven binary digits make a number below 128.
pub(crate) proof fn lemma_seven_digits(bits: Seq<bool>)
    requires
        bits.len() == 7,
    ensures
        0 <= bits_value(bits) < 128,
{
    reveal_with_fuel(bits_value, 8);
}

/// A number has one binary form of each length.
pub(crate) proof fn lemma_digits_are_unique(a: Seq<bool>, b: Seq<bool>)
    requires
        a.len() == b.len(),
        bits_value(a) == bits_value(b),
    ensures
        a == b,
    decreases a.len(),
{
    if a.len() > 0 {
        lemma_digits_are_unique(a.drop_last(), b.drop_last());
        assert(a =~= a.drop_last().push(a.last()));
        assert(b =~= b.drop_last().push(b.last()));
    } else {
        assert(a =~= b);
    }
}

/// CRC-7 of a byte string, as a register.
pub fn crc7_of(bytes: &[u8]) -> (crc: u8)
    ensures
        crc < 128,
        crc == bits_value(crc7_bits(message_bits(bytes@))),
{
    let mut reg: u8 = 0;
    let mut i: usize = 0;
    proof {
        lemma_zero_register();
        let m = message_bits(bytes@);
        assert(bytes@.skip(0) =~= bytes@);
        assert(add_leading(register_bits(0), m + zeros7()) =~= m + zeros7());
    }
    while i < bytes.len()
        invariant
            i <= bytes.len(),
            crc7_bits(message_bits(bytes@)) == poly_rem(
                add_leading(register_bits(reg), message_bits(bytes@.skip(i as int)) + zeros7()),
            ),
        decreases bytes.len() - i,
    {
        let ghost tail = bytes@.skip(i as int);
        reg = crc7_update(reg, bytes[i]);
        proof {
            assert(tail.skip(1) =~= bytes@.skip(i + 1));
            let rest = message_bits(tail.skip(1)) + zeros7();
            assert(message_bits(tail) + zeros7() =~= byte_bits(tail[0]) + rest);
        }
        i = i + 1;
    }
    proof {
        assert(bytes@.skip(i as int).len() == 0);
        assert(Seq::<bool>::empty() + zeros7() =~= zeros7());
        assert(add_leading(register_bits(reg), zeros7()) =~= register_bits(reg));
        lemma_register_value(reg);
        assert(reg & 0x7F == reg % 128) by (bit_vector);
    }
    reg & 0x7F
}

/// `p` with `c` added to its seven trailing coefficients.
pub open spec fn add_trailing(p: Seq<bool>, c: Seq<bool>) -> Seq<bool> {
    Seq::new(p.len(), |i: int| if i >= p.len() - 7 { p[i] != c[i - (p.len() - 7)] } else { p[i] })
}

/// Adding a polynomial below the divisor's degree adds it to the remainder.
proof fn lemma_rem_linear(p: Seq<bool>, c: Seq<bool>)
    requires
        p.len() >= 7,
        c.len() == 7,
    ensures
        poly_rem(p).len() == 7,
        poly_rem(add_trailing(p, c)) == add_trailing(poly_rem(p), c),
    decreases p.len(),
{
    if p.len() > 7 {
        let q = p.skip(1);
        let w = add_trailing(p, c);
        let v = w.skip(1);
        if p[0] {
            let q2 = q.update(3, !q[3]).update(6, !q[6]);
            lemma_rem_linear(q2, c);
            assert(v.update(3, !v[3]).update(6, !v[6]) =~= add_trailing(q2, c));
        } else {
            lemma_rem_linear(q, c);
            assert(v =~= add_trailing(q, c));
        }
    }
}

/// A message followed by its CRC-7 leaves no remainder: a receiver that runs
/// the division over the whole frame ends with zero.
pub proof fn crc7_residue_is_zero(message: Seq<bool>)
    ensures
        crc7_bits(message).len() == 7,
        poly_rem(message + crc7_bits(message)) == zeros7(),
{
    let p = message + zeros7();
    lemma_rem_linear(p, zeros7());
    lemma_rem_linear(p, crc7_bits(message));
    assert(add_trailing(p, crc7_bits(message)) =~= message + crc7_bits(message));
    assert(add_trailing(crc7_bits(message), crc7_bits(message)) =~= zeros7());
}

/// Two tails of seven bits that both leave no remainder behind one message
/// are the same: only the message's own CRC-7 passes the check.
pub proof fn crc7_is_the_only_residue(message: Seq<bool>, tail: Seq<bool>)
    requires
        tail.len() == 7,
        poly_rem(message + tail) == zeros7(),
    ensures
        tail == crc7_bits(message),
{
    let p = message + zeros7();
    lemma_rem_linear(p, tail);
    assert(add_trailing(p, tail) =~= message + tail);
    let c = crc7_bits(message);
    assert forall|i: int| 0 <= i < 7 implies tail[i] == c[i] by {
        assert(add_trailing(c, tail)[i] == zeros7()[i]);
    }
    assert(tail =~= c);
}

} // verus!
