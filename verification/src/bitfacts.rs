//! Facts about shifts and masks on bytes and words, proved by bit blasting.
use vstd::prelude::*;

verus! {

/// Masks and powers of two built by shifting, for the field widths of the formats.
pub proof fn lemma_shift_masks(s: u8)
    by (bit_vector)
    requires
        s <= 8,
    ensures
        s <= 7 ==> 1u8 << s >= 1 && 1u8 << s <= 0x80,
        s <= 7 ==> ((1u8 << s) - 1) as u8 != 0xff,
        1 <= s <= 7 ==> (1u8 << s) >= 2,
        1 <= s <= 4 ==> ((1u8 << s) - 1) as u8 >= 1,
        2 <= s <= 4 ==> ((1u8 << s) - 1) as u8 >= 3,
        1 <= s ==> 1u16 << s >= 1 && (1u16 << s) - 1 <= 0xff,
        1 <= s ==> ((1u16 << s) - 1) as u8 >= 1,
        1 <= s ==> ((1u16 << s) - 1) as u8 as int + 1 == (1u16 << s) as int,
        1 <= s <= 6 ==> ((1u16 << s) - 1) as u8 <= 63,
        s == 2 ==> ((1u16 << s) - 1) as u8 == 3,
        s == 3 ==> ((1u16 << s) - 1) as u8 == 7,
        s == 4 ==> ((1u16 << s) - 1) as u8 == 15,
        s == 5 ==> ((1u16 << s) - 1) as u8 == 31,
        s == 8 ==> ((1u16 << s) - 1) as u8 == 255,
        (1u8 << 7u8) == 0x80,
{
}

/// Facts about one byte, its top bit and shifts by zero.
pub proof fn lemma_byte_facts(b: u8, k: u8, mask: u8)
    by (bit_vector)
    ensures
        b & !0x80u8 == b % 0x80u8,
        ((b & 0x80u8) != 0) == (b >= 0x80u8),
        b << 0u8 == b,
        b >> 0u8 == b,
        0u8 ^ b == b,
        0u8 >> k == 0,
        0u8 & mask == 0,
        b < 16 ==> b >> 4u8 == 0,
        b & 0xffu8 == b,
{
}

/// The fields of a word read as an `f32`, and the words built from them.
pub proof fn lemma_word_facts(x: u32)
    by (bit_vector)
    ensures
        ((x & 0x7fff_ffff) >> 23) & 0xff == (x % 0x8000_0000) / 0x80_0000,
        (x & 0x7fff_ffff) & 0x7f_ffff == x % 0x80_0000,
        x & 0x7f_ffff == x % 0x80_0000,
        (x & 0x7fff_ffff) == ((x % 0x8000_0000) / 0x80_0000) * 0x80_0000 + x % 0x80_0000,
        x == (if x >= 0x8000_0000 { 0x8000_0000u32 } else { 0 }) + ((x % 0x8000_0000)
            / 0x80_0000) * 0x80_0000 + x % 0x80_0000,
        (x & 0x7fff_ffff) & 0x7fff_ffff == (x & 0x7fff_ffff),
        (x & 0x7fff_ffff) < 0x8000_0000,
        0x80_0000u32 | (x & 0x7f_ffff) == 0x80_0000 + (x & 0x7f_ffff),
        (1u32 << 23u32) | (x & 0x7f_ffff) == 0x80_0000 + (x & 0x7f_ffff),
        x < 0x80_0000 ==> x >> 23u32 == 0,
        x | 0x7fc0_0000u32 == (if x == 0x8000_0000 { 0xffc0_0000u32 } else if x == 0 {
            0x7fc0_0000u32
        } else {
            x | 0x7fc0_0000u32
        }),
        x | (0u32 << 23u32) | 0u32 == x,
{
}

/// The low bit of a word tells its parity.
pub proof fn lemma_parity_u64(q: u64)
    by (bit_vector)
    ensures
        (q & 1 == 1) == (q % 2 == 1),
{
}

/// A sign bit above a magnitude, and the magnitude read back.
pub proof fn lemma_sign_and_magnitude(m: u8, sb: u8, k: u8)
    by (bit_vector)
    requires
        k <= 7,
        sb == 1u8 << k,
        m < sb,
    ensures
        m % sb == m,
        (sb + m) as u8 % sb == m,
        sb + m <= 0xff,
        m ^ sb == sb + m,
        (sb + m) as u8 ^ sb == m,
{
}

/// Within a signed layout's fields: a magnitude no larger than a bound built from the
/// fields keeps its exponent field below the top, or its mantissa field below all ones.
pub proof fn lemma_magnitude_fields_below(mag: u8, e: u8, m: u8)
    by (bit_vector)
    requires
        1 <= m <= 4,
        2 <= e,
        e + m <= 7,
        mag < (1u8 << (e + m)),
    ensures
        mag <= (((((1u16 << e) - 1) as u8 - 1) as u8) << m) | ((1u8 << m) - 1) as u8 ==> mag
            >> m < ((1u16 << e) - 1) as u8,
        mag <= ((((1u16 << e) - 1) as u8) << m) | (((1u8 << m) - 1) as u8 - 1) as u8 ==> !(
        mag >> m == ((1u16 << e) - 1) as u8 && mag & ((1u8 << m) - 1) as u8 == ((1u8 << m)
            - 1) as u8),
{
}

/// Flipping the sign bit twice gives the byte back, keeps the bits below the sign bit, and,
/// within the storage bits, toggles whether the byte is at or above the sign bit.
pub proof fn lemma_flip_sign(b: u8, sb: u8, k: u8, mask: u8)
    by (bit_vector)
    requires
        k <= 7,
        sb == 1u8 << k,
        mask == (if k == 7 { 0xffu8 } else { ((1u8 << (k + 1)) - 1) as u8 }),
    ensures
        (b ^ sb) ^ sb == b,
        (b ^ sb) % sb == b % sb,
        b % sb < sb,
        b & mask == b ==> ((b ^ sb) >= sb) == !(b >= sb),
        b & mask == b ==> (b ^ sb) & mask == (b ^ sb),
        b & mask == b && b >= sb ==> b ^ sb == b % sb,
        b & mask == b && b < sb ==> b ^ sb == sb + b,
        b & mask == b && b % sb == 0 ==> b == 0 || b == sb,
        b % sb != 0 ==> b ^ sb != sb,
        b < sb ==> b & mask == b,
{
}

/// The key of the total order, on bytes within `s` storage bits whose top bit is the sign:
/// it grows with a nonnegative pattern, falls with a negative one, puts every negative
/// pattern below every nonnegative one, and tells any two patterns apart.
pub proof fn lemma_total_key_bits(a: u8, b: u8, s: u8, mask: u8)
    by (bit_vector)
    requires
        2 <= s <= 8,
        mask == (if s == 8 { 0xffu8 } else { ((1u8 << s) - 1) as u8 }),
        a & mask == a,
        b & mask == b,
    ensures
        ({
            let sb = (1u8 << (s - 1) as u8) as u8;
            let wa = if s < 8 { ((a & mask) << (8 - s) as u8) as u8 } else { a };
            let wb = if s < 8 { ((b & mask) << (8 - s) as u8) as u8 } else { b };
            let ka = if wa >= 0x80 { (!wa) as i16 } else { (wa | 0x80u8) as i16 };
            let kb = if wb >= 0x80 { (!wb) as i16 } else { (wb | 0x80u8) as i16 };
            &&& (a < sb && b < sb && a < b) ==> ka < kb
            &&& (a >= sb && b >= sb && b < a) ==> ka < kb
            &&& (a >= sb && b < sb) ==> ka < kb
            &&& a != b ==> ka != kb
        }),
{
}

} // verus!
