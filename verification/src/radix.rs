//! The radix codec model: what the binary, hexadecimal and octal string
//! forms of a bit sequence are, character by character.

use crate::bitmath::byte_bit;
use vstd::prelude::*;

verus! {

/// A character of a binary source string.
pub open spec fn is_bin_digit(c: char) -> bool {
    c == '0' || c == '1'
}

/// The bits a binary digit string denotes: one bit per character.
pub open spec fn bin_bits(s: Seq<char>) -> Seq<bool> {
    Seq::new(s.len(), |i: int| s[i] == '1')
}

/// The binary digit string of a bit sequence: one character per bit.
pub open spec fn bin_chars(v: Seq<bool>) -> Seq<char> {
    Seq::new(
        v.len(),
        |i: int|
            if v[i] {
                '1'
            } else {
                '0'
            },
    )
}

/// A hexadecimal digit, either case.
pub open spec fn is_hex_digit(c: char) -> bool {
    ||| '0' as int <= c as int <= '9' as int
    ||| 'a' as int <= c as int <= 'f' as int
    ||| 'A' as int <= c as int <= 'F' as int
}

/// The value of a hexadecimal digit.
pub open spec fn hex_val(c: char) -> u8
    recommends
        is_hex_digit(c),
{
    if '0' as int <= c as int <= '9' as int {
        (c as int - '0' as int) as u8
    } else if 'a' as int <= c as int <= 'f' as int {
        (c as int - 'a' as int + 10) as u8
    } else if 'A' as int <= c as int <= 'F' as int {
        (c as int - 'A' as int + 10) as u8
    } else {
        0
    }
}

/// The lower-case hexadecimal digit of a nibble value.
pub open spec fn hex_char(n: u8) -> char
    recommends
        n < 16,
{
    match n {
        0 => '0',
        1 => '1',
        2 => '2',
        3 => '3',
        4 => '4',
        5 => '5',
        6 => '6',
        7 => '7',
        8 => '8',
        9 => '9',
        10 => 'a',
        11 => 'b',
        12 => 'c',
        13 => 'd',
        14 => 'e',
        _ => 'f',
    }
}

/// Bit `k` (most significant first) of a 4-bit value.
pub open spec fn nib_bit(n: u8, k: u8) -> bool
    recommends
        n < 16,
        k < 4,
{
    n & (8u8 >> k) != 0
}

/// The 4-bit value of the nibble starting at bit `4 * i` of a bit sequence.
pub open spec fn nib_val_of(v: Seq<bool>, i: int) -> u8
    recommends
        0 <= i,
        4 * i + 4 <= v.len(),
{
    (if v[4 * i] {
        8u8
    } else {
        0u8
    }) | (if v[4 * i + 1] {
        4u8
    } else {
        0u8
    }) | (if v[4 * i + 2] {
        2u8
    } else {
        0u8
    }) | (if v[4 * i + 3] {
        1u8
    } else {
        0u8
    })
}

/// The bits a hexadecimal string denotes: four bits per character.
pub open spec fn hex_bits(s: Seq<char>) -> Seq<bool> {
    Seq::new(4 * s.len(), |p: int| nib_bit(hex_val(s[p / 4]), (p % 4) as u8))
}

/// The hexadecimal string of a bit sequence whose length is a multiple of 4.
pub open spec fn hex_chars(v: Seq<bool>) -> Seq<char>
    recommends
        v.len() % 4 == 0,
{
    Seq::new(v.len() / 4, |i: int| hex_char(nib_val_of(v, i)))
}

/// The bytes a hexadecimal string decodes to: one byte per digit pair, high
/// nibble first, an odd trailing digit padded with one zero nibble.
pub open spec fn hex_packed(s: Seq<char>) -> Seq<u8> {
    Seq::new(
        ((s.len() + 1) / 2) as nat,
        |m: int|
            if 2 * m + 1 < s.len() {
                (16 * hex_val(s[2 * m]) + hex_val(s[2 * m + 1])) as u8
            } else {
                (16 * hex_val(s[2 * m])) as u8
            },
    )
}

/// An octal digit.
pub open spec fn is_oct_digit(c: char) -> bool {
    '0' as int <= c as int <= '7' as int
}

/// The value of an octal digit.
pub open spec fn oct_val(c: char) -> u8
    recommends
        is_oct_digit(c),
{
    if '0' as int <= c as int <= '7' as int {
        (c as int - '0' as int) as u8
    } else {
        0
    }
}

/// The octal digit of a 3-bit value.
pub open spec fn oct_char(n: u8) -> char
    recommends
        n < 8,
{
    match n {
        0 => '0',
        1 => '1',
        2 => '2',
        3 => '3',
        4 => '4',
        5 => '5',
        6 => '6',
        _ => '7',
    }
}

/// Bit `k` (most significant first) of a 3-bit value.
pub open spec fn tri_bit(n: u8, k: u8) -> bool
    recommends
        n < 8,
        k < 3,
{
    n & (4u8 >> k) != 0
}

/// The 3-bit value of the bit group starting at bit `3 * i` of a bit
/// sequence.
pub open spec fn tri_val_of(v: Seq<bool>, i: int) -> u8
    recommends
        0 <= i,
        3 * i + 3 <= v.len(),
{
    (if v[3 * i] {
        4u8
    } else {
        0u8
    }) | (if v[3 * i + 1] {
        2u8
    } else {
        0u8
    }) | (if v[3 * i + 2] {
        1u8
    } else {
        0u8
    })
}

/// The bits an octal string denotes: three bits per character.
pub open spec fn oct_bits(s: Seq<char>) -> Seq<bool> {
    Seq::new(3 * s.len(), |p: int| tri_bit(oct_val(s[p / 3]), (p % 3) as u8))
}

/// The octal string of a bit sequence whose length is a multiple of 3.
pub open spec fn oct_chars(v: Seq<bool>) -> Seq<char>
    recommends
        v.len() % 3 == 0,
{
    Seq::new(v.len() / 3, |i: int| oct_char(tri_val_of(v, i)))
}

/// A hexadecimal digit's value is below 16.
pub proof fn lemma_hex_val_bound(c: char)
    requires
        is_hex_digit(c),
    ensures
        hex_val(c) < 16,
{
}

/// The digit of a nibble value reads back as that value.
pub proof fn lemma_hex_char_val(n: u8)
    requires
        n < 16,
    ensures
        is_hex_digit(hex_char(n)),
        hex_val(hex_char(n)) == n,
{
}

/// The digit of a 3-bit value reads back as that value.
pub proof fn lemma_oct_char_val(n: u8)
    requires
        n < 8,
    ensures
        is_oct_digit(oct_char(n)),
        oct_val(oct_char(n)) == n,
{
}

/// The bits of a byte are the bits of its two nibbles.
pub proof fn lemma_byte_of_nibbles(a: u8, b: u8, k: u8)
    by (bit_vector)
    requires
        a < 16,
        b < 16,
        k < 8,
    ensures
        byte_bit((16 * a + b) as u8, k) == if k < 4 {
            nib_bit(a, k)
        } else {
            nib_bit(b, (k - 4) as u8)
        },
{
}

/// The two nibbles of a byte carry the byte's bits.
pub proof fn lemma_nibbles_of_byte(x: u8, k: u8)
    by (bit_vector)
    requires
        k < 8,
    ensures
        x >> 4u8 < 16,
        x & 0x0fu8 < 16,
        byte_bit(x, k) == if k < 4 {
            nib_bit(x >> 4u8, k)
        } else {
            nib_bit(x & 0x0fu8, (k - 4) as u8)
        },
{
}

/// A 4-bit value packed from four bits hands each bit back.
pub proof fn lemma_nib_pack(b0: bool, b1: bool, b2: bool, b3: bool, k: u8)
    by (bit_vector)
    requires
        k < 4,
    ensures
        ({
            let n = (if b0 {
                8u8
            } else {
                0u8
            }) | (if b1 {
                4u8
            } else {
                0u8
            }) | (if b2 {
                2u8
            } else {
                0u8
            }) | (if b3 {
                1u8
            } else {
                0u8
            });
            &&& n < 16
            &&& nib_bit(n, k) == if k == 0 {
                b0
            } else if k == 1 {
                b1
            } else if k == 2 {
                b2
            } else {
                b3
            }
        }),
{
}

/// A 3-bit value packed from three bits hands each bit back.
pub proof fn lemma_tri_pack(b0: bool, b1: bool, b2: bool, k: u8)
    by (bit_vector)
    requires
        k < 3,
    ensures
        ({
            let n = (if b0 {
                4u8
            } else {
                0u8
            }) | (if b1 {
                2u8
            } else {
                0u8
            }) | (if b2 {
                1u8
            } else {
                0u8
            });
            &&& n < 8
            &&& tri_bit(n, k) == if k == 0 {
                b0
            } else if k == 1 {
                b1
            } else {
                b2
            }
        }),
{
}

/// The three bits of a 3-bit value, written as plain masks.
pub proof fn lemma_tri_bit_consts(n: u8)
    by (bit_vector)
    ensures
        tri_bit(n, 0) == (n & 4u8 != 0),
        tri_bit(n, 1) == (n & 2u8 != 0),
        tri_bit(n, 2) == (n & 1u8 != 0),
{
}

/// A nibble value below 16 is exactly the packing of its own four bits.
pub proof fn lemma_nib_unpack(n: u8)
    by (bit_vector)
    requires
        n < 16,
    ensures
        n == (if nib_bit(n, 0) {
            8u8
        } else {
            0u8
        }) | (if nib_bit(n, 1) {
            4u8
        } else {
            0u8
        }) | (if nib_bit(n, 2) {
            2u8
        } else {
            0u8
        }) | (if nib_bit(n, 3) {
            1u8
        } else {
            0u8
        }),
{
}

/// A 3-bit value below 8 is exactly the packing of its own three bits.
pub proof fn lemma_tri_unpack(n: u8)
    by (bit_vector)
    requires
        n < 8,
    ensures
        n == (if tri_bit(n, 0) {
            4u8
        } else {
            0u8
        }) | (if tri_bit(n, 1) {
            2u8
        } else {
            0u8
        }) | (if tri_bit(n, 2) {
            1u8
        } else {
            0u8
        }),
{
}

} // verus!
