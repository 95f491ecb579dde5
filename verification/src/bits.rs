//! The core buffer type: an immutable view (offset + length, in bits) over a
//! shared, reference-counted byte store.

use crate::bitmath::{
    bit_of, byte_bit, count_falses, count_trues, flip_bits, lemma_and_byte, lemma_append_keeps_bits,
    lemma_append_new_bits, lemma_bit_of_subrange, lemma_bit_split, lemma_byte_shift, lemma_ceil8,
    lemma_count_partition, lemma_count_take_step, lemma_invert_byte, lemma_left_merge,
    lemma_merge_boundary, lemma_or_byte, lemma_push_keeps_bits, lemma_push_new_byte,
    lemma_right_merge, lemma_xor_byte, lemma_zero_byte, rev_byte, rev_offset, rev_store, view_of,
};
use crate::bitmath::{
    bit_at, find_all_from, find_from, lemma_find_from_bounds, lemma_find_from_shift,
    lemma_find_from_spec, lemma_mask_top, lemma_packed_bytes_of, lemma_quarter_split,
    lemma_set_bit, matches_at, packed_bytes, search_step,
};
use crate::radix::{
    bin_bits, bin_chars, hex_bits, hex_char, hex_chars, hex_packed, hex_val, is_bin_digit,
    is_hex_digit, is_oct_digit, lemma_byte_of_nibbles, lemma_hex_val_bound, lemma_nib_pack, lemma_nib_unpack,
    lemma_nibbles_of_byte, lemma_tri_bit_consts, lemma_tri_pack, nib_bit, nib_val_of, oct_bits,
    oct_char, oct_chars, oct_val, tri_bit, tri_val_of,
};
use vstd::pervasive::VecAdditionalExecFns;
use vstd::string::StrSliceExecFns;
use vstd::string::StringExecFns;
use crate::BitsError;
use std::sync::Arc;
use vstd::prelude::*;

verus! {

broadcast use vstd::std_specs::vec::axiom_spec_len;

/// Relies on Arc::clone: the returned handle is the same shared byte store.
#[verifier::external_body]
fn share_store(a: &Arc<Vec<u8>>) -> (r: Arc<Vec<u8>>)
    ensures
        r == *a,
{
    Arc::clone(a)
}

/// Reads one bit out of a packed byte store.
fn read_bit(d: &Vec<u8>, p: u64) -> (r: bool)
    requires
        p < 8 * d@.len(),
    ensures
        r == bit_of(d@, p as int),
{
    proof {
        assert(vstd::std_specs::vec::spec_vec_len(d) == d@.len());
        lemma_bit_split(p as int);
    }
    let byte = d[(p / 8) as usize];
    (byte & (128u8 >> ((p % 8) as u8))) != 0
}

/// A vector of `count` copies of `value`.
fn filled_bytes(value: u8, count: u64) -> (r: Vec<u8>)
    requires
        count <= usize::MAX,
    ensures
        r@ == Seq::new(count as nat, |j: int| value),
{
    let mut v: Vec<u8> = Vec::new();
    let mut i: u64 = 0;
    while i < count
        invariant
            i <= count <= usize::MAX,
            v@.len() == i,
            forall|j: int| 0 <= j < i ==> v@[j] == value,
        decreases count - i,
    {
        v.push(value);
        i = i + 1;
    }
    proof {
        assert(v@ =~= Seq::new(count as nat, |j: int| value));
    }
    v
}

/// Relies on String::push: appends exactly one character.
#[verifier::external_body]
fn push_char(s: &mut String, c: char)
    ensures
        final(s)@ == old(s)@.push(c),
{
    s.push(c);
}

/// Relies on hex::decode: an even-length string of hexadecimal digits
/// decodes without error to one byte per digit pair, high nibble first.
/// The requires clauses exclude the two inputs on which hex::decode
/// reports an error (odd length, a non-hex byte), so the unwrap cannot
/// panic.
#[verifier::external_body]
fn hex_decode(s: &str) -> (r: Vec<u8>)
    requires
        s@.len() % 2 == 0,
        forall|i: int| 0 <= i < s@.len() ==> is_hex_digit(s@[i]),
    ensures
        r@.len() == s@.len() / 2,
        forall|m: int|
            0 <= m < r@.len() ==> r@[m] == (16 * hex_val(s@[2 * m]) + hex_val(
                s@[2 * m + 1],
            )) as u8,
{
    hex::decode(s).unwrap()
}

/// The lower-case hexadecimal digit of a nibble value.
fn hex_char_of(n: u8) -> (c: char)
    requires
        n < 16,
    ensures
        c == hex_char(n),
{
    match n {
        0 => '0',
        1 => '1',
        2 => '2',
        3 => '3',
        4 => '4',
        5 => '5',
        6 => '6',
        7 => '7',
        8 => '8',
        9 => '9',
        10 => 'a',
        11 => 'b',
        12 => 'c',
        13 => 'd',
        14 => 'e',
        _ => 'f',
    }
}

/// The octal digit of a 3-bit value.
fn oct_char_of(n: u8) -> (c: char)
    requires
        n < 8,
    ensures
        c == oct_char(n),
{
    match n {
        0 => '0',
        1 => '1',
        2 => '2',
        3 => '3',
        4 => '4',
        5 => '5',
        6 => '6',
        _ => '7',
    }
}

/// The boolean operator a bitwise operation applies at each bit position.
#[derive(Clone, Copy)]
enum BitOp {
    And,
    Or,
    Xor,
}

/// What a bitwise operator means at one bit position.
spec fn apply_op(op: BitOp, a: bool, b: bool) -> bool {
    match op {
        BitOp::And => a && b,
        BitOp::Or => a || b,
        BitOp::Xor => a != b,
    }
}

/// Applies a bitwise operator to one pair of bytes.
fn byte_op(op: BitOp, x: u8, y: u8) -> (r: u8)
    ensures
        forall|k: u8|
            k < 8 ==> #[trigger] byte_bit(r, k) == apply_op(op, byte_bit(x, k), byte_bit(y, k)),
{
    match op {
        BitOp::And => {
            proof {
                assert forall|k: u8| k < 8 implies #[trigger] byte_bit(x & y, k) == apply_op(
                    op,
                    byte_bit(x, k),
                    byte_bit(y, k),
                ) by {
                    lemma_and_byte(x, y, k);
                }
            }
            x & y
        },
        BitOp::Or => {
            proof {
                assert forall|k: u8| k < 8 implies #[trigger] byte_bit(x | y, k) == apply_op(
                    op,
                    byte_bit(x, k),
                    byte_bit(y, k),
                ) by {
                    lemma_or_byte(x, y, k);
                }
            }
            x | y
        },
        BitOp::Xor => {
            proof {
                assert forall|k: u8| k < 8 implies #[trigger] byte_bit(x ^ y, k) == apply_op(
                    op,
                    byte_bit(x, k),
                    byte_bit(y, k),
                ) by {
                    lemma_xor_byte(x, y, k);
                }
            }
            x ^ y
        },
    }
}

/// A byte with its bit order reversed.
fn reverse_byte(x: u8) -> (r: u8)
    ensures
        r == rev_byte(x),
{
    let y = ((x & 0x01) << 7) | ((x & 0x02) << 5) | ((x & 0x04) << 3) | ((x & 0x08) << 1) | ((x
        & 0x10) >> 1) | ((x & 0x20) >> 3) | ((x & 0x40) >> 5) | ((x & 0x80) >> 7);
    y
}

/// The bit content of each buffer in a sequence of buffers.
pub open spec fn views_of(v: Seq<&Bits>) -> Seq<Seq<bool>> {
    Seq::new(v.len(), |i: int| v[i]@)
}

/// Flattening one more element appends that element's bits.
proof fn lemma_flatten_take_step(v: Seq<Seq<bool>>, m: int)
    requires
        0 <= m < v.len(),
    ensures
        v.take(m + 1).flatten() == v.take(m).flatten() + v[m],
{
    v.lemma_take_succ_push(m);
    v.take(m).lemma_flatten_push(v[m]);
}

/// A prefix never flattens to more bits than the whole.
proof fn lemma_flatten_take_le(v: Seq<Seq<bool>>, m: int)
    requires
        0 <= m <= v.len(),
    ensures
        v.take(m).flatten().len() <= v.flatten().len(),
    decreases v.len() - m,
{
    if m < v.len() {
        lemma_flatten_take_step(v, m);
        lemma_flatten_take_le(v, m + 1);
    } else {
        assert(v.take(m) =~= v);
    }
}

/// Appends `src[from..]` onto `dst`.
fn push_bytes(dst: &mut Vec<u8>, src: &Vec<u8>, from: usize)
    requires
        from <= src@.len(),
    ensures
        final(dst)@ == old(dst)@ + src@.subrange(from as int, src@.len() as int),
{
    let n = src.len();
    let mut i: usize = from;
    while i < n
        invariant
            from <= i <= n,
            n == src@.len(),
            dst@ == old(dst)@ + src@.subrange(from as int, i as int),
        decreases n - i,
    {
        dst.push(src[i]);
        proof {
            assert(old(dst)@ + src@.subrange(from as int, i as int + 1) =~= (old(dst)@
                + src@.subrange(from as int, i as int)).push(src@[i as int]));
        }
        i = i + 1;
    }
    proof {
        assert(src@.subrange(from as int, n as int) =~= src@.subrange(
            from as int,
            src@.len() as int,
        ));
    }
}

/// `ceil(bits / 8)`: the number of bytes needed to hold `bits` bits.
fn byte_count(bits: u64) -> (r: u64)
    ensures
        r == (bits as int + 7) / 8,
{
    let q = bits / 8;
    let rem = bits % 8;
    proof {
        lemma_bit_split(bits as int);
        if rem == 0 {
            vstd::arithmetic::div_mod::lemma_fundamental_div_mod_converse(
                bits as int + 7,
                8,
                q as int,
                7,
            );
        } else {
            vstd::arithmetic::div_mod::lemma_fundamental_div_mod_converse(
                bits as int + 7,
                8,
                q as int + 1,
                rem as int - 1,
            );
        }
    }
    if rem == 0 {
        q
    } else {
        q + 1
    }
}

/// Bits holds an arbitrary amount of binary data. The data is stored in a
/// shared byte store but does not need to be a multiple of 8 bits: a bit
/// offset and a bit length select the live bits.
#[derive(Debug)]
pub struct Bits {
    data: Arc<Vec<u8>>,
    offset: u64,
    length: u64,
}

impl Bits {
    /// The live bits always fit inside the backing store, and the store is
    /// small enough that bit positions fit comfortably in a u64.
    #[verifier::type_invariant]
    pub closed spec fn inv(self) -> bool {
        &&& self.offset + self.length <= 8 * self.data@.len()
        &&& self.length <= u64::MAX / 8
        &&& 8 * self.data@.len() <= u64::MAX - 64
        &&& self.data@.len() <= usize::MAX
    }

    /// The logical bit content: the mathematical value of this buffer.
    pub closed spec fn view(self) -> Seq<bool> {
        view_of(self.data@, self.offset as int, self.length as int)
    }

    /// The bridge between a buffer's value and its representation: the
    /// logical bits are the store's bits read at the offset for the length.
    pub proof fn lemma_view_of_store(b: Bits)
        ensures
            b@ == view_of(b.spec_data(), b.spec_offset() as int, b.spec_length() as int),
    {
    }

    /// The raw backing bytes, as a sequence.
    pub closed spec fn spec_data(self) -> Seq<u8> {
        self.data@
    }

    /// The bit offset of the first live bit within the backing store.
    pub closed spec fn spec_offset(self) -> u64 {
        self.offset
    }

    /// The number of live bits.
    pub closed spec fn spec_length(self) -> u64 {
        self.length
    }

    /// Returns the bit offset to the data in the Bits object.
    pub fn offset(&self) -> (r: u64)
        ensures
            r == self.spec_offset(),
    {
        self.offset
    }

    /// Returns the length of the Bits object in bits.
    pub fn length(&self) -> (r: u64)
        ensures
            r == self.spec_length(),
            r == self@.len(),
            r <= u64::MAX / 8,
    {
        proof {
            use_type_invariant(self);
        }
        self.length
    }

    /// Returns a reference to the raw data in the Bits object.
    /// Note that the offset and length values govern which part of this raw
    /// buffer is the actual binary data.
    pub fn data(&self) -> (r: &Vec<u8>)
        ensures
            r@ == self.spec_data(),
    {
        &*self.data
    }

    /// The byte index where the live bits start.
    pub open spec fn spec_start_byte(self) -> int {
        self.spec_offset() as int / 8
    }

    /// The byte index just past the live bits.
    pub open spec fn spec_end_byte(self) -> int {
        (self.spec_offset() + self.spec_length() + 7) as int / 8
    }

    /// Returns the byte index of the start of the binary data.
    fn start_byte(&self) -> (r: usize)
        ensures
            r == self.spec_start_byte(),
            r <= self.spec_data().len(),
    {
        proof {
            use_type_invariant(self);
            lemma_bit_split(self.offset as int);
            assert(self.offset as int / 8 <= self.data@.len());
        }
        (self.offset / 8) as usize
    }

    /// Returns the byte index of the end of the binary data.
    fn end_byte(&self) -> (r: usize)
        ensures
            r == self.spec_end_byte(),
            self.spec_start_byte() <= r <= self.spec_data().len(),
            8 * r >= self.offset + self.length,
    {
        proof {
            use_type_invariant(self);
            lemma_ceil8((self.offset + self.length) as int);
            lemma_bit_split(self.offset as int);
            assert((self.offset + self.length + 7) as int / 8 <= self.data@.len());
        }
        ((self.offset + self.length + 7) / 8) as usize
    }

    /// Builds a buffer over the given bytes with an explicit bit offset and
    /// bit length, rejecting a pair that exceeds the store's capacity.
    pub fn new(data: Vec<u8>, offset: u64, length: u64) -> (r: Result<Self, BitsError>)
        requires
            8 * data@.len() <= u64::MAX / 8,
        ensures
            match r {
                Ok(b) => {
                    &&& offset + length <= 8 * data@.len()
                    &&& b@ == view_of(data@, offset as int, length as int)
                    &&& b.spec_data() == data@
                    &&& b.spec_offset() == offset
                    &&& b.spec_length() == length
                },
                Err(e) => {
                    &&& offset + length > 8 * data@.len()
                    &&& e == BitsError::OutOfBounds(offset, (8 * data@.len()) as u64)
                },
            },
    {
        let cap = (data.len() as u64) * 8;
        if length > cap || offset > cap - length {
            return Err(BitsError::OutOfBounds(offset, cap));
        }
        Ok(Bits { data: Arc::new(data), offset, length })
    }

    /// A buffer of `length` zero bits, backed by `ceil(length / 8)` zero
    /// bytes.
    pub fn from_zeros(length: u64) -> (r: Self)
        requires
            length <= u64::MAX / 8,
            (length as int + 7) / 8 <= usize::MAX,
        ensures
            r@ == Seq::new(length as nat, |i: int| false),
            r.spec_data() == Seq::new(((length as int + 7) / 8) as nat, |j: int| 0u8),
            r.spec_offset() == 0,
            r.spec_length() == length,
    {
        let n = byte_count(length);
        proof {
            lemma_ceil8(length as int);
        }
        let data = filled_bytes(0, n);
        let r = Bits { data: Arc::new(data), offset: 0, length };
        proof {
            assert forall|i: int| 0 <= i < length implies !bit_of(r.data@, i) by {
                lemma_bit_split(i);
                lemma_zero_byte((i % 8) as u8);
            }
            assert(r@ =~= Seq::new(length as nat, |i: int| false));
        }
        r
    }

    /// A buffer of `length` one bits, backed by `ceil(length / 8)` bytes of
    /// 0xff.
    pub fn from_ones(length: u64) -> (r: Self)
        requires
            length <= u64::MAX / 8,
            (length as int + 7) / 8 <= usize::MAX,
        ensures
            r@ == Seq::new(length as nat, |i: int| true),
            r.spec_data() == Seq::new(((length as int + 7) / 8) as nat, |j: int| 0xffu8),
            r.spec_offset() == 0,
            r.spec_length() == length,
    {
        let n = byte_count(length);
        proof {
            lemma_ceil8(length as int);
        }
        let data = filled_bytes(0xff, n);
        let r = Bits { data: Arc::new(data), offset: 0, length };
        proof {
            assert forall|i: int| 0 <= i < length implies bit_of(r.data@, i) by {
                lemma_bit_split(i);
                let k = (i % 8) as u8;
                assert(byte_bit(0xffu8, k)) by (bit_vector)
                    requires
                        k < 8,
                ;
            }
            assert(r@ =~= Seq::new(length as nat, |i: int| true));
        }
        r
    }

    /// A buffer over the whole of the given bytes: offset 0, one bit per
    /// stored bit.
    pub fn from_bytes(data: Vec<u8>) -> (r: Self)
        requires
            8 * data@.len() <= u64::MAX / 8,
        ensures
            r@ == view_of(data@, 0, 8 * data@.len() as int),
            r.spec_data() == data@,
            r.spec_offset() == 0,
            r.spec_length() == 8 * data@.len(),
    {
        let bitlength = (data.len() as u64) * 8;
        Bits { data: Arc::new(data), offset: 0, length: bitlength }
    }

    /// A sub-view of the bits from `start_bit` (inclusive) to `end_bit`
    /// (exclusive), sharing the same byte store.
    pub fn slice(&self, start_bit: u64, end_bit: u64) -> (r: Self)
        requires
            start_bit <= end_bit,
            end_bit <= self@.len(),
        ensures
            r@ == self@.subrange(start_bit as int, end_bit as int),
            r.spec_data() == self.spec_data(),
            r.spec_offset() == self.spec_offset() + start_bit,
            r.spec_length() == end_bit - start_bit,
    {
        proof {
            use_type_invariant(self);
        }
        let new_length = end_bit - start_bit;
        let r = Bits {
            data: share_store(&self.data),
            offset: start_bit + self.offset,
            length: new_length,
        };
        proof {
            assert(r@ =~= self@.subrange(start_bit as int, end_bit as int));
        }
        r
    }

    /// The checked form of `slice`: rejects an end bit past the end of the
    /// buffer.
    pub fn getslice(&self, start_bit: u64, end_bit: u64) -> (r: Result<Self, BitsError>)
        requires
            start_bit <= end_bit,
        ensures
            match r {
                Ok(b) => {
                    &&& end_bit <= self@.len()
                    &&& b@ == self@.subrange(start_bit as int, end_bit as int)
                    &&& b.spec_data() == self.spec_data()
                    &&& b.spec_offset() == self.spec_offset() + start_bit
                    &&& b.spec_length() == end_bit - start_bit
                },
                Err(e) => {
                    &&& end_bit > self@.len()
                    &&& e == BitsError::OutOfBounds(end_bit, self.spec_length())
                },
            },
    {
        proof {
            use_type_invariant(self);
        }
        if end_bit > self.length {
            return Err(BitsError::OutOfBounds(end_bit, self.length));
        }
        Ok(self.slice(start_bit, end_bit))
    }

    /// A buffer with the same value whose store holds only the spanned
    /// bytes, so the offset drops below 8.
    pub fn trim(&self) -> (r: Self)
        ensures
            r@ == self@,
            r.spec_data() == self.spec_data().subrange(
                self.spec_start_byte(),
                self.spec_end_byte(),
            ),
            r.spec_offset() == self.spec_offset() % 8,
            r.spec_length() == self.spec_length(),
    {
        proof {
            use_type_invariant(self);
        }
        let sb = self.start_byte();
        let eb = self.end_byte();
        if self.offset < 8 && eb == self.data.len() {
            proof {
                assert(self.offset / 8 == 0 && self.offset % 8 == self.offset);
            }
            return Bits {
                data: share_store(&self.data),
                offset: self.offset,
                length: self.length,
            };
        }
        let window = vstd::slice::slice_to_vec(
            vstd::slice::slice_subrange(self.data.as_slice(), sb, eb),
        );
        let r = Bits { data: Arc::new(window), offset: self.offset % 8, length: self.length };
        proof {
            lemma_bit_split(self.offset as int);
            assert forall|i: int| 0 <= i < self.length implies #[trigger] bit_of(
                r.data@,
                self.offset as int % 8 + i,
            ) == bit_of(self.data@, self.offset + i) by {
                lemma_bit_of_subrange(
                    self.data@,
                    self.spec_start_byte(),
                    self.spec_end_byte(),
                    self.offset as int % 8 + i,
                );
            }
            assert(r@ =~= self@);
        }
        r
    }

    /// Returns a copy with the same bit content whose first live bit sits at
    /// bit `new_offset` (< 8) of byte 0, backed by a store of exactly
    /// `ceil((new_offset + length) / 8)` bytes. This is the rebase engine
    /// that every alignment-sensitive operation routes through.
    fn copy_with_new_offset(&self, new_offset: u64) -> (r: Self)
        requires
            new_offset < 8,
        ensures
            r@ == self@,
            r.spec_length() == self.spec_length(),
            r.spec_offset() == if self.spec_length() == 0 {
                0u64
            } else {
                new_offset
            },
            r.spec_data().len() == if self.spec_length() == 0 {
                0int
            } else {
                (new_offset + self.spec_length() + 7) as int / 8
            },
    {
        proof {
            use_type_invariant(self);
        }
        if self.length == 0 {
            let r = Bits { data: Arc::new(Vec::new()), offset: 0, length: 0 };
            proof {
                assert(r@ =~= self@);
            }
            return r;
        }
        let sb = self.start_byte();
        let eb = self.end_byte();
        let bit_offset = self.offset % 8;
        let dv: &Vec<u8> = &*self.data;
        let ghost o = self.offset as int;
        let ghost l = self.length as int;
        let ghost t = new_offset as int;
        let ghost d = self.data@;
        proof {
            lemma_bit_split(o);
            lemma_ceil8(o + l);
        }
        if new_offset == bit_offset {
            let window = vstd::slice::slice_to_vec(
                vstd::slice::slice_subrange(dv.as_slice(), sb, eb),
            );
            let r = Bits { data: Arc::new(window), offset: new_offset, length: self.length };
            proof {
                lemma_byte_shift(sb as int, t + l + 7);
                assert forall|j: int| 0 <= j < l implies #[trigger] bit_of(window@, t + j)
                    == bit_of(d, o + j) by {
                    lemma_bit_of_subrange(d, sb as int, eb as int, t + j);
                }
                assert(r@ =~= self@);
            }
            return r;
        }
        let new_byte_length = byte_count(new_offset + self.length);
        proof {
            lemma_ceil8(t + l);
        }
        let mut nd: Vec<u8> = Vec::new();
        if new_offset < bit_offset {
            let left_shift = (bit_offset - new_offset) as u8;
            let mut i: u64 = 0;
            while i < new_byte_length
                invariant
                    self.inv(),
                    1 <= left_shift < 8,
                    o == self.offset,
                    l == self.length,
                    d == self.data@,
                    dv@ == d,
                    l >= 1,
                    t == new_offset,
                    t == o % 8 - left_shift,
                    sb == o / 8,
                    eb == (o + l + 7) / 8,
                    eb <= d.len(),
                    o + l <= 8 * eb,
                    new_byte_length == (t + l + 7) / 8,
                    t + l <= 8 * new_byte_length,
                    new_byte_length <= eb - sb,
                    i <= new_byte_length,
                    nd@.len() == i,
                    forall|p: int|
                        0 <= p < 8 * i && t <= p < t + l ==> #[trigger] bit_of(nd@, p) == bit_of(
                            d,
                            o + (p - t),
                        ),
                decreases new_byte_length - i,
            {
                let src = sb + (i as usize);
                let lo = dv[src];
                let hi = if src + 1 < eb {
                    dv[src + 1]
                } else {
                    0u8
                };
                let b = (lo << left_shift) | (hi >> (8 - left_shift));
                proof {
                    lemma_bit_split(o);
                    assert forall|p: int|
                        0 <= p < 8 * i + 8 && t <= p < t + l implies #[trigger] bit_of(
                        nd@.push(b),
                        p,
                    ) == bit_of(d, o + (p - t)) by {
                        if p < 8 * i {
                            lemma_push_keeps_bits(nd@, b, p);
                        } else {
                            let k = (p - 8 * i) as u8;
                            lemma_push_new_byte(nd@, b, p);
                            lemma_left_merge(lo, hi, left_shift, k);
                            let abs = o + (p - t);
                            assert(abs == 8 * (sb as int + i) + (k + left_shift));
                            if k + left_shift < 8 {
                                lemma_byte_shift(sb as int + i, k as int + left_shift);
                            } else {
                                assert(abs < o + l);
                                lemma_byte_shift(sb as int + i + 1, k as int + left_shift - 8);
                            }
                        }
                    }
                }
                nd.push(b);
                i = i + 1;
            }
        } else {
            let right_shift = (new_offset - bit_offset) as u8;
            let mut i: u64 = 0;
            while i < new_byte_length
                invariant
                    self.inv(),
                    1 <= right_shift < 8,
                    o == self.offset,
                    l == self.length,
                    d == self.data@,
                    dv@ == d,
                    l >= 1,
                    t == new_offset,
                    t == o % 8 + right_shift,
                    t < 8,
                    sb == o / 8,
                    eb == (o + l + 7) / 8,
                    eb <= d.len(),
                    o + l <= 8 * eb,
                    new_byte_length == (t + l + 7) / 8,
                    t + l <= 8 * new_byte_length,
                    i <= new_byte_length,
                    nd@.len() == i,
                    forall|p: int|
                        0 <= p < 8 * i && t <= p < t + l ==> #[trigger] bit_of(nd@, p) == bit_of(
                            d,
                            o + (p - t),
                        ),
                decreases new_byte_length - i,
            {
                let src = (sb as u64) + i;
                proof {
                    lemma_bit_split(o);
                }
                let cur = if src < (eb as u64) {
                    dv[src as usize]
                } else {
                    0u8
                };
                let prev = if i >= 1 {
                    dv[(src - 1) as usize]
                } else {
                    0u8
                };
                let b = (cur >> right_shift) | (prev << (8 - right_shift));
                proof {
                    assert forall|p: int|
                        0 <= p < 8 * i + 8 && t <= p < t + l implies #[trigger] bit_of(
                        nd@.push(b),
                        p,
                    ) == bit_of(d, o + (p - t)) by {
                        if p < 8 * i {
                            lemma_push_keeps_bits(nd@, b, p);
                        } else {
                            let k = (p - 8 * i) as u8;
                            lemma_push_new_byte(nd@, b, p);
                            lemma_right_merge(cur, prev, right_shift, k);
                            let abs = o + (p - t);
                            assert(abs == 8 * (sb as int + i) + (k - right_shift));
                            assert(abs < o + l);
                            if k >= right_shift {
                                lemma_byte_shift(sb as int + i, k as int - right_shift);
                            } else {
                                assert(i >= 1);
                                lemma_byte_shift(sb as int + i - 1, k as int + 8 - right_shift);
                            }
                        }
                    }
                }
                nd.push(b);
                i = i + 1;
            }
        }
        proof {
            assert(vstd::std_specs::vec::spec_vec_len(&nd) == nd@.len());
        }
        let r = Bits { data: Arc::new(nd), offset: new_offset, length: self.length };
        proof {
            assert forall|j: int| 0 <= j < l implies #[trigger] bit_of(r.data@, t + j) == bit_of(
                d,
                o + j,
            ) by {
                assert(t <= t + j < t + l);
            }
            assert(r@ =~= self@);
        }
        r
    }

    /// The number of set bits, summed over a copy rebased to offset 0.
    fn count(&self) -> (r: u64)
        ensures
            r == count_trues(self@),
            r <= self@.len(),
    {
        proof {
            use_type_invariant(self);
        }
        let clipped = self.copy_with_new_offset(0);
        proof {
            use_type_invariant(&clipped);
        }
        let mut total: u64 = 0;
        let mut j: u64 = 0;
        while j < clipped.length
            invariant
                clipped.inv(),
                j <= clipped.length,
                total == count_trues(clipped@.take(j as int)),
                total <= j,
            decreases clipped.length - j,
        {
            proof {
                lemma_count_take_step(clipped@, j as int);
            }
            if read_bit(&*clipped.data, clipped.offset + j) {
                total = total + 1;
            }
            j = j + 1;
        }
        proof {
            assert(clipped@.take(clipped.length as int) =~= clipped@);
        }
        total
    }

    /// The number of set bits.
    pub fn count_ones(&self) -> (r: u64)
        ensures
            r == count_trues(self@),
    {
        self.count()
    }

    /// The number of clear bits: the length less the number of set bits.
    pub fn count_zeros(&self) -> (r: u64)
        ensures
            r == count_falses(self@),
    {
        proof {
            use_type_invariant(self);
            lemma_count_partition(self@);
        }
        self.length - self.count()
    }

    /// True iff every live bit is set. Vacuously true of an empty buffer.
    pub fn all_set(&self) -> (r: bool)
        ensures
            r <==> (forall|i: int| 0 <= i < self@.len() ==> self@[i]),
    {
        proof {
            use_type_invariant(self);
        }
        let mut i: u64 = 0;
        while i < self.length
            invariant
                self.inv(),
                i <= self.length,
                forall|k: int| 0 <= k < i ==> self@[k],
            decreases self.length - i,
        {
            if !read_bit(&*self.data, self.offset + i) {
                proof {
                    assert(!self@[i as int]);
                }
                return false;
            }
            i = i + 1;
        }
        true
    }

    /// True iff at least one live bit is set.
    pub fn any_set(&self) -> (r: bool)
        ensures
            r <==> (exists|i: int| 0 <= i < self@.len() && self@[i]),
    {
        proof {
            use_type_invariant(self);
        }
        let mut i: u64 = 0;
        while i < self.length
            invariant
                self.inv(),
                i <= self.length,
                forall|k: int| 0 <= k < i ==> !self@[k],
            decreases self.length - i,
        {
            if read_bit(&*self.data, self.offset + i) {
                proof {
                    assert(self@[i as int]);
                }
                return true;
            }
            i = i + 1;
        }
        false
    }

    /// A buffer of the same length whose every bit is complemented: every
    /// spanned byte is XORed with all-ones in a copy of the store, with the
    /// offset and length unchanged.
    pub fn invert(&self) -> (r: Self)
        ensures
            r@ == flip_bits(self@),
            r@.len() == self@.len(),
            r.spec_data() == Seq::new(
                self.spec_data().len(),
                |j: int|
                    if self.spec_start_byte() <= j < self.spec_end_byte() {
                        self.spec_data()[j] ^ 0xffu8
                    } else {
                        self.spec_data()[j]
                    },
            ),
            r.spec_length() == self.spec_length(),
            r.spec_offset() == self.spec_offset(),
    {
        proof {
            use_type_invariant(self);
            lemma_bit_split(self.offset as int);
        }
        let sb = self.start_byte();
        let eb = self.end_byte();
        let dv: &Vec<u8> = &*self.data;
        let n = dv.len();
        let ghost d = self.data@;
        let ghost o = self.offset as int;
        let ghost l = self.length as int;
        let mut nd: Vec<u8> = Vec::new();
        let mut i: usize = 0;
        while i < n
            invariant
                d == self.data@,
                dv@ == d,
                n == d.len(),
                0 <= i <= n,
                sb == o / 8,
                eb == (o + l + 7) / 8,
                sb <= eb <= n,
                nd@.len() == i,
                forall|j: int|
                    0 <= j < i ==> #[trigger] nd@[j] == if sb <= j < eb {
                        d[j] ^ 0xffu8
                    } else {
                        d[j]
                    },
            decreases n - i,
        {
            if sb <= i && i < eb {
                nd.push(dv[i] ^ 0xff);
            } else {
                nd.push(dv[i]);
            }
            i = i + 1;
        }
        proof {
            use_type_invariant(self);
            assert(vstd::std_specs::vec::spec_vec_len(&nd) == nd@.len());
        }
        let r = Bits { data: Arc::new(nd), offset: self.offset, length: self.length };
        proof {
            lemma_ceil8(o + l);
            assert forall|j: int| 0 <= j < l implies #[trigger] bit_of(r.data@, o + j) == !bit_of(
                d,
                o + j,
            ) by {
                let p = o + j;
                lemma_bit_split(p);
                lemma_invert_byte(d[p / 8], (p % 8) as u8);
            }
            assert(r@ =~= flip_bits(self@));
            assert(r.spec_data() =~= Seq::new(
                d.len(),
                |j: int|
                    if o / 8 <= j < (o + l + 7) / 8 {
                        d[j] ^ 0xffu8
                    } else {
                        d[j]
                    },
            ));
        }
        r
    }

    /// A buffer with the same spanned bytes, each byte's bit order reversed
    /// and byte order kept, with the offset recomputed so that reversing
    /// twice gives the original value back.
    #[verifier::rlimit(80)]
    #[verifier::spinoff_prover]
    pub fn reverse(&self) -> (r: Self)
        ensures
            r.spec_data() == rev_store(
                self.spec_data(),
                self.spec_offset() as int,
                self.spec_length() as int,
            ),
            r.spec_offset() == rev_offset(self.spec_offset() as int, self.spec_length() as int),
            r.spec_length() == self.spec_length(),
            r@.len() == self@.len(),
            r@ == view_of(
                rev_store(self.spec_data(), self.spec_offset() as int, self.spec_length() as int),
                rev_offset(self.spec_offset() as int, self.spec_length() as int),
                self.spec_length() as int,
            ),
            self.spec_offset() + self.spec_length() <= 8 * self.spec_data().len(),
    {
        proof {
            use_type_invariant(self);
            lemma_bit_split(self.offset as int);
            lemma_bit_split((self.offset + self.length) as int);
        }
        let sb = self.start_byte();
        let eb = self.end_byte();
        let dv: &Vec<u8> = &*self.data;
        let ghost d = self.data@;
        let ghost o = self.offset as int;
        let ghost l = self.length as int;
        let mut nd: Vec<u8> = Vec::new();
        let mut i: usize = sb;
        while i < eb
            invariant
                d == self.data@,
                dv@ == d,
                sb <= i <= eb <= d.len(),
                sb == o / 8,
                eb == (o + l + 7) / 8,
                nd@.len() == i - sb,
                forall|j: int| 0 <= j < i - sb ==> nd@[j] == rev_byte(d[sb + j]),
            decreases eb - i,
        {
            nd.push(reverse_byte(dv[i]));
            i = i + 1;
        }
        let final_bits = (self.offset + self.length) % 8;
        let new_offset = if final_bits == 0 {
            0
        } else {
            8 - final_bits
        };
        proof {
            use_type_invariant(self);
            assert(vstd::std_specs::vec::spec_vec_len(&nd) == nd@.len());
            lemma_ceil8(o + l);
            assert(nd@ =~= rev_store(d, o, l));
        }
        Bits { data: Arc::new(nd), offset: new_offset, length: self.length }
    }

    /// The logical bits packed into `ceil(length / 8)` bytes from bit 0,
    /// most significant bit first; when the length is not a multiple of 8,
    /// the trailing partial byte is zero-padded in its low bits.
    pub fn to_bytes(&self) -> (r: Vec<u8>)
        ensures
            r@ == packed_bytes(self@),
            r@.len() == (self@.len() + 7) / 8,
    {
        proof {
            use_type_invariant(self);
        }
        let clipped = self.copy_with_new_offset(0);
        proof {
            use_type_invariant(&clipped);
        }
        let ghost v = self@;
        let ghost l = self.length as int;
        let mut out = vstd::slice::slice_to_vec(clipped.data.as_slice());
        let rem = self.length % 8;
        proof {
            lemma_bit_split(l);
            lemma_ceil8(l);
        }
        if rem != 0 {
            let li = out.len() - 1;
            let masked = out[li] & !(0xffu8 >> (rem as u8));
            let ghost before = out@;
            out.set(li, masked);
            proof {
                assert forall|p: int| 0 <= p < 8 * out@.len() implies #[trigger] bit_of(out@, p)
                    == bit_at(v, p) by {
                    lemma_bit_split(p);
                    if p / 8 == li {
                        lemma_mask_top(before[li as int], rem as u8, (p % 8) as u8);
                        if p < l {
                            assert(bit_of(before, p) == clipped@[p]);
                        }
                    } else {
                        assert(bit_of(out@, p) == bit_of(before, p));
                        assert(bit_of(before, p) == clipped@[p]);
                    }
                }
                lemma_packed_bytes_of(out@, v);
            }
        } else {
            proof {
                assert forall|p: int| 0 <= p < 8 * out@.len() implies #[trigger] bit_of(out@, p)
                    == bit_at(v, p) by {
                    assert(bit_of(out@, p) == clipped@[p]);
                }
                lemma_packed_bytes_of(out@, v);
            }
        }
        out
    }

    /// The byte-wise combination of two equal-length buffers, the right
    /// operand rebased to the left one's sub-byte offset first.
    fn bitwise_op(&self, other: &Bits, op: BitOp) -> (r: Result<Self, BitsError>)
        ensures
            match r {
                Ok(b) => {
                    &&& self@.len() == other@.len()
                    &&& b@ == Seq::new(
                        self@.len(),
                        |i: int| apply_op(op, self@[i], other@[i]),
                    )
                    &&& b.spec_length() == self.spec_length()
                },
                Err(e) => {
                    &&& self@.len() != other@.len()
                    &&& e == BitsError::LengthMismatch(self.spec_length(), other.spec_length())
                },
            },
    {
        proof {
            use_type_invariant(self);
            use_type_invariant(other);
        }
        if self.length != other.length {
            return Err(BitsError::LengthMismatch(self.length, other.length));
        }
        let rebased = other.copy_with_new_offset(self.offset % 8);
        proof {
            use_type_invariant(&rebased);
            lemma_bit_split(self.offset as int);
            lemma_byte_shift(self.spec_start_byte(), (self.offset % 8 + self.length + 7) as int);
            lemma_ceil8((self.offset + self.length) as int);
            lemma_ceil8((self.offset % 8 + self.length) as int);
        }
        let sb = self.start_byte();
        let ghost eb = self.spec_end_byte();
        let dv: &Vec<u8> = &*self.data;
        let rv: &Vec<u8> = &*rebased.data;
        let ghost d = self.data@;
        let ghost ro = rebased.spec_offset() as int;
        let ghost o = self.offset as int;
        let ghost l = self.length as int;
        let n = rv.len();
        let mut nd: Vec<u8> = Vec::new();
        let mut i: usize = 0;
        while i < n
            invariant
                d == self.data@,
                dv@ == d,
                rv@ == rebased.spec_data(),
                rebased.inv(),
                rebased@ == other@,
                other@.len() == l,
                self@.len() == l,
                self@ == view_of(d, o, l),
                rebased@ == view_of(rv@, ro, l),
                l == rebased.spec_length(),
                ro == if l == 0 { 0int } else { o % 8 },
                n == rv@.len(),
                l == 0 ==> n == 0,
                l > 0 ==> n == (o % 8 + l + 7) / 8,
                sb == o / 8,
                sb + n <= d.len(),
                d.len() <= usize::MAX,
                ro + l <= 8 * n,
                0 <= i <= n,
                nd@.len() == i,
                forall|p: int|
                    0 <= p < 8 * i && ro <= p < ro + l ==> #[trigger] bit_of(nd@, p) == apply_op(
                        op,
                        self@[p - ro],
                        other@[p - ro],
                    ),
            decreases n - i,
        {
            let x = dv[sb + i];
            let y = rv[i];
            let b = byte_op(op, x, y);
            proof {
                lemma_bit_split(o);
                assert forall|p: int|
                    0 <= p < 8 * i + 8 && ro <= p < ro + l implies #[trigger] bit_of(nd@.push(b), p)
                    == apply_op(op, self@[p - ro], other@[p - ro]) by {
                    if p < 8 * i {
                        lemma_push_keeps_bits(nd@, b, p);
                    } else {
                        let k = (p - 8 * i) as u8;
                        lemma_push_new_byte(nd@, b, p);
                        lemma_byte_shift(sb as int, p);
                        lemma_bit_split(p);
                        assert(byte_bit(x, k) == bit_of(d, 8 * sb + p));
                        assert(byte_bit(y, k) == bit_of(rv@, p));
                        assert(8 * sb + p == o + (p - ro));
                        assert(bit_of(rv@, ro + (p - ro)) == other@[p - ro]);
                    }
                }
            }
            nd.push(b);
            i = i + 1;
        }
        proof {
            assert(vstd::std_specs::vec::spec_vec_len(&nd) == nd@.len());
        }
        let r = Bits { data: Arc::new(nd), offset: rebased.offset, length: self.length };
        proof {
            assert forall|j: int| 0 <= j < l implies #[trigger] bit_of(r.data@, ro + j)
                == apply_op(op, self@[j], other@[j]) by {
                assert(ro <= ro + j < ro + l);
            }
            assert(r@ =~= Seq::new(self@.len(), |i: int| apply_op(op, self@[i], other@[i])));
        }
        Ok(r)
    }

    /// The bitwise AND of two equal-length buffers.
    pub fn and_(&self, other: &Bits) -> (r: Result<Self, BitsError>)
        ensures
            match r {
                Ok(b) => {
                    &&& self@.len() == other@.len()
                    &&& b@ == Seq::new(self@.len(), |i: int| self@[i] && other@[i])
                    &&& b.spec_length() == self.spec_length()
                },
                Err(e) => {
                    &&& self@.len() != other@.len()
                    &&& e == BitsError::LengthMismatch(self.spec_length(), other.spec_length())
                },
            },
    {
        let r = self.bitwise_op(other, BitOp::And);
        proof {
            if r is Ok {
                assert(r->Ok_0@ =~= Seq::new(self@.len(), |i: int| self@[i] && other@[i]));
            }
        }
        r
    }

    /// The bitwise OR of two equal-length buffers.
    pub fn or_(&self, other: &Bits) -> (r: Result<Self, BitsError>)
        ensures
            match r {
                Ok(b) => {
                    &&& self@.len() == other@.len()
                    &&& b@ == Seq::new(self@.len(), |i: int| self@[i] || other@[i])
                    &&& b.spec_length() == self.spec_length()
                },
                Err(e) => {
                    &&& self@.len() != other@.len()
                    &&& e == BitsError::LengthMismatch(self.spec_length(), other.spec_length())
                },
            },
    {
        let r = self.bitwise_op(other, BitOp::Or);
        proof {
            if r is Ok {
                assert(r->Ok_0@ =~= Seq::new(self@.len(), |i: int| self@[i] || other@[i]));
            }
        }
        r
    }

    /// The bitwise XOR of two equal-length buffers.
    pub fn xor_(&self, other: &Bits) -> (r: Result<Self, BitsError>)
        ensures
            match r {
                Ok(b) => {
                    &&& self@.len() == other@.len()
                    &&& b@ == Seq::new(self@.len(), |i: int| self@[i] != other@[i])
                    &&& b.spec_length() == self.spec_length()
                },
                Err(e) => {
                    &&& self@.len() != other@.len()
                    &&& e == BitsError::LengthMismatch(self.spec_length(), other.spec_length())
                },
            },
    {
        let r = self.bitwise_op(other, BitOp::Xor);
        proof {
            if r is Ok {
                assert(r->Ok_0@ =~= Seq::new(self@.len(), |i: int| self@[i] != other@[i]));
            }
        }
        r
    }

    /// Bit-exact concatenation: one buffer, backed by one new byte store,
    /// whose bit content is the concatenation of the given buffers' bits.
    /// When two or more buffers are joined and the first one is
    /// byte-aligned, the produced store is byte-identical to packing the
    /// same bit sequence from a binary digit string.
    pub fn join(bits_vec: &Vec<&Bits>) -> (r: Self)
        requires
            views_of(bits_vec@).flatten().len() <= u64::MAX / 8,
        ensures
            r@ == views_of(bits_vec@).flatten(),
            bits_vec@.len() == 0 ==> r.spec_offset() == 0,
            bits_vec@.len() == 1 ==> r.spec_offset() == bits_vec@[0].spec_offset(),
            bits_vec@.len() > 1 ==> r.spec_offset() == bits_vec@[0].spec_offset() % 8,
            bits_vec@.len() == 0 ==> r.spec_data() == packed_bytes(r@),
            bits_vec@.len() > 1 && bits_vec@[0].spec_offset() % 8 == 0 ==> r.spec_data()
                == packed_bytes(r@),
    {
        let ghost views = views_of(bits_vec@);
        let n = bits_vec.len();
        if n == 0 {
            let r = Bits::from_zeros(0);
            proof {
                assert(r@ =~= views.flatten());
                assert(r.spec_data() =~= packed_bytes(r@));
            }
            return r;
        }
        if n == 1 {
            let r = bits_vec[0].clone();
            proof {
                views.lemma_flatten_one_element();
            }
            return r;
        }
        let first = bits_vec[0];
        proof {
            use_type_invariant(first);
        }
        let sb0 = first.start_byte();
        let eb0 = first.end_byte();
        let mut data = vstd::slice::slice_to_vec(
            vstd::slice::slice_subrange(first.data.as_slice(), sb0, eb0),
        );
        let new_offset = first.offset % 8;
        let mut new_length = first.length;
        proof {
            lemma_bit_split(first.offset as int);
            lemma_ceil8((first.offset + first.length) as int);
            lemma_byte_shift(sb0 as int, (new_offset + new_length + 7) as int);
            lemma_flatten_take_step(views, 0);
            assert(views.take(0).flatten() =~= Seq::<bool>::empty());
            assert(views.take(1).flatten() =~= first@);
            assert forall|j: int| 0 <= j < new_length implies #[trigger] bit_of(
                data@,
                new_offset + j,
            ) == views.take(1).flatten()[j] by {
                lemma_bit_of_subrange(first.data@, sb0 as int, eb0 as int, new_offset + j);
            }
        }
        let mut k: usize = 1;
        while k < n
            invariant
                views == views_of(bits_vec@),
                n == bits_vec@.len(),
                1 <= k <= n,
                views.flatten().len() <= u64::MAX / 2,
                new_offset < 8,
                new_length == views.take(k as int).flatten().len(),
                data@.len() == (new_offset + new_length + 7) as int / 8,
                forall|j: int|
                    0 <= j < new_length ==> #[trigger] bit_of(data@, new_offset + j) == views.take(
                        k as int,
                    ).flatten()[j],
            decreases n - k,
        {
            let b = bits_vec[k];
            proof {
                use_type_invariant(b);
                lemma_flatten_take_le(views, k as int);
                lemma_flatten_take_step(views, k as int);
                lemma_flatten_take_le(views, k as int + 1);
            }
            let ghost pre = views.take(k as int).flatten();
            let ghost cur = views.take(k as int + 1).flatten();
            if b.length == 0 {
                proof {
                    assert(cur =~= pre);
                }
                k = k + 1;
                continue ;
            }
            let extra_bits = (new_length + new_offset) % 8;
            let offset_bits = b.copy_with_new_offset(extra_bits);
            proof {
                use_type_invariant(&offset_bits);
            }
            let rv: &Vec<u8> = &*offset_bits.data;
            let ghost olddata = data@;
            let ghost a = (new_offset + new_length) as int;
            let ghost lb = b.spec_length() as int;
            let ghost e = extra_bits as int;
            let ghost rvlen = rv@.len() as int;
            proof {
                lemma_bit_split(a);
                lemma_ceil8(e + lb);
            }
            if extra_bits == 0 {
                proof {
                    vstd::arithmetic::div_mod::lemma_fundamental_div_mod_converse(
                        a + 7,
                        8,
                        a / 8,
                        7,
                    );
                }
                push_bytes(&mut data, rv, 0);
                proof {
                    assert(rv@.subrange(0, rv@.len() as int) =~= rv@);
                    lemma_byte_shift(a / 8, lb + 7);
                    assert forall|j: int|
                        0 <= j < new_length + lb implies #[trigger] bit_of(data@, new_offset + j)
                        == cur[j] by {
                        let p = new_offset + j;
                        if j < new_length {
                            lemma_append_keeps_bits(olddata, rv@, p);
                        } else {
                            lemma_append_new_bits(olddata, rv@, p);
                            assert(p - 8 * olddata.len() == j - new_length);
                            assert(bit_of(rv@, 0 + (j - new_length)) == offset_bits@[j
                                - new_length]);
                        }
                    }
                }
                new_length = new_length + b.length;
            } else {
                proof {
                    vstd::arithmetic::div_mod::lemma_fundamental_div_mod_converse(
                        a + 7,
                        8,
                        a / 8 + 1,
                        e - 1,
                    );
                    assert(olddata.len() == a / 8 + 1);
                }
                let ghost q = a / 8;
                let eb8 = extra_bits as u8;
                let top = data.pop().unwrap();
                let last_byte = top & !(0xff >> eb8);
                let first_byte = rv[0] & (0xff >> eb8);
                data.push(last_byte | first_byte);
                push_bytes(&mut data, rv, 1);
                proof {
                    let merged = (olddata[q] & !(0xffu8 >> eb8)) | (rv@[0] & (0xffu8 >> eb8));
                    let rvtail = rv@.subrange(1, rvlen);
                    let nd = data@;
                    assert(nd =~= olddata.subrange(0, q).push(merged) + rvtail);
                    assert(nd.len() == q + rvlen);
                    assert(forall|m: int| 0 <= m < q ==> #[trigger] nd[m] == olddata[m]);
                    assert(nd[q] == merged);
                    assert(forall|m: int| 1 <= m < rvlen ==> #[trigger] nd[q + m] == rv@[m]);
                    assert forall|j: int|
                        0 <= j < new_length + lb implies #[trigger] bit_of(nd, new_offset + j)
                        == cur[j] by {
                        let p = new_offset + j;
                        lemma_bit_split(p);
                        if j < new_length {
                            if p / 8 < q {
                                assert(bit_of(nd, p) == bit_of(olddata, p));
                            } else {
                                assert(p / 8 == q);
                                let kk = (p % 8) as u8;
                                lemma_merge_boundary(olddata[q], rv@[0], eb8, kk);
                                assert(bit_of(nd, p) == bit_of(olddata, p));
                            }
                        } else {
                            let m = j - new_length;
                            let u = e + m;
                            lemma_byte_shift(q, u);
                            lemma_bit_split(u);
                            assert(bit_of(rv@, e + m) == offset_bits@[m]);
                            if u / 8 == 0 {
                                let kk = (u % 8) as u8;
                                lemma_merge_boundary(olddata[q], rv@[0], eb8, kk);
                                assert(bit_of(nd, p) == bit_of(rv@, u));
                            } else {
                                assert(nd[q + u / 8] == rv@[u / 8]);
                                assert(bit_of(nd, p) == bit_of(rv@, u));
                            }
                        }
                    }
                    lemma_byte_shift(q, e + lb + 7);
                }
                new_length = new_length + b.length;
            }
            k = k + 1;
        }
        proof {
            assert(views.take(n as int) =~= views);
        }
        let ghost total = views.flatten();
        let ghost a = (new_offset + new_length) as int;
        let extra_end = (new_length + new_offset) % 8;
        if extra_end != 0 {
            proof {
                lemma_ceil8(a);
                vstd::arithmetic::div_mod::lemma_fundamental_div_mod_converse(
                    a + 7,
                    8,
                    a / 8 + 1,
                    a % 8 - 1,
                );
            }
            let li = data.len() - 1;
            let masked = data[li] & !(0xffu8 >> (extra_end as u8));
            let ghost before = data@;
            data.set(li, masked);
            proof {
                lemma_bit_split(a);
                assert(li == a / 8);
                assert forall|j: int|
                    0 <= j < new_length implies #[trigger] bit_of(data@, new_offset + j)
                    == total[j] by {
                    let p = new_offset as int + j;
                    lemma_bit_split(p);
                    assert(p < a);
                    if p / 8 == li {
                        assert(data@[li as int] == masked);
                        assert(p % 8 < extra_end as int);
                        lemma_mask_top(before[li as int], extra_end as u8, (p % 8) as u8);
                        assert(byte_bit(masked, (p % 8) as u8) == byte_bit(
                            before[li as int],
                            (p % 8) as u8,
                        ));
                        assert(bit_of(data@, p) == bit_of(before, p));
                    } else {
                        assert(data@[p / 8] == before[p / 8]);
                        assert(bit_of(data@, p) == bit_of(before, p));
                    }
                    assert(bit_of(before, p) == total[j]);
                }
                assert forall|p: int|
                    a <= p < 8 * data@.len() implies !#[trigger] bit_of(data@, p) by {
                    lemma_bit_split(p);
                    lemma_mask_top(before[li as int], extra_end as u8, (p % 8) as u8);
                }
            }
        } else {
            proof {
                lemma_bit_split(a);
                vstd::arithmetic::div_mod::lemma_fundamental_div_mod_converse(
                    a + 7,
                    8,
                    a / 8,
                    7,
                );
            }
        }
        proof {
            assert(vstd::std_specs::vec::spec_vec_len(&data) == data@.len());
        }
        let r = Bits { data: Arc::new(data), offset: new_offset, length: new_length };
        proof {
            assert(r@ =~= total);
            if new_offset == 0 {
                assert forall|p: int|
                    0 <= p < 8 * data@.len() implies #[trigger] bit_of(data@, p) == bit_at(
                    total,
                    p,
                ) by {
                    if p < new_length {
                        assert(bit_of(data@, 0 + p) == total[p]);
                    }
                }
                lemma_packed_bytes_of(data@, total);
                assert(r.spec_data() == packed_bytes(r@));
            }
        }
        r
    }

    /// The first start position, scanned forward in steps of one bit (or of
    /// one byte when `bytealigned`), where the needle's bits occur in this
    /// buffer; `None` when the needle is longer than the buffer or never
    /// occurs at a candidate position.
    pub fn find(&self, b: &Bits, bytealigned: bool) -> (r: Option<u64>)
        ensures
            ({
                let step = search_step(bytealigned);
                match r {
                    Some(p) => {
                        &&& find_from(self@, b@, 0, step) == Some(p as int)
                        &&& p + b@.len() <= self@.len()
                        &&& p as int % step == 0
                        &&& matches_at(self@, b@, p as int)
                        &&& forall|q: int|
                            0 <= q < p && q % step == 0 ==> !#[trigger] matches_at(self@, b@, q)
                    },
                    None => {
                        &&& find_from(self@, b@, 0, step) is None
                        &&& forall|q: int|
                            0 <= q && q + b@.len() <= self@.len() && q % step == 0
                                ==> !#[trigger] matches_at(self@, b@, q)
                    },
                }
            }),
    {
        proof {
            use_type_invariant(self);
            use_type_invariant(b);
        }
        let ghost h = self@;
        let ghost nd = b@;
        let step: u64 = if bytealigned {
            8
        } else {
            1
        };
        proof {
            lemma_find_from_spec(h, nd, 0, step as int);
        }
        if b.length > self.length {
            return None;
        }
        let mut sbit: u64 = 0;
        while sbit + b.length <= self.length
            invariant
                self.inv(),
                b.inv(),
                h == self@,
                nd == b@,
                step == search_step(bytealigned),
                b.length == nd.len(),
                self.length == h.len(),
                b.length <= self.length,
                sbit as int <= self.length - b.length + 8,
                sbit % step == 0,
                find_from(h, nd, 0, step as int) == find_from(h, nd, sbit as int, step as int),
            decreases self.length - b.length + 8 - sbit,
        {
            let piece = self.slice(sbit, sbit + b.length);
            if piece == *b {
                proof {
                    assert(matches_at(h, nd, sbit as int));
                    assert(find_from(h, nd, sbit as int, step as int) == Some(sbit as int));
                    lemma_find_from_spec(h, nd, 0, step as int);
                }
                return Some(sbit);
            }
            proof {
                assert(!matches_at(h, nd, sbit as int));
                vstd::arithmetic::div_mod::lemma_mod_add_multiples_vanish(sbit as int, step as int);
            }
            sbit = sbit + step;
        }
        proof {
            assert(find_from(h, nd, sbit as int, step as int) is None);
            lemma_find_from_spec(h, nd, 0, step as int);
        }
        None
    }

    /// The last start position where the needle's bits occur in this buffer,
    /// scanned from the highest candidate downward; with `bytealigned` the
    /// highest candidate is first rounded down to a byte boundary. `None`
    /// when no candidate position matches.
    pub fn rfind(&self, b: &Bits, bytealigned: bool) -> (r: Option<u64>)
        ensures
            ({
                let step = search_step(bytealigned);
                match r {
                    Some(p) => {
                        &&& p + b@.len() <= self@.len()
                        &&& p as int % step == 0
                        &&& matches_at(self@, b@, p as int)
                        &&& forall|q: int|
                            p < q && q + b@.len() <= self@.len() && q % step == 0
                                ==> !#[trigger] matches_at(self@, b@, q)
                    },
                    None => forall|q: int|
                        0 <= q && q + b@.len() <= self@.len() && q % step == 0
                            ==> !#[trigger] matches_at(self@, b@, q),
                }
            }),
    {
        proof {
            use_type_invariant(self);
            use_type_invariant(b);
        }
        let ghost h = self@;
        let ghost nd = b@;
        let step: u64 = if bytealigned {
            8
        } else {
            1
        };
        if b.length > self.length {
            return None;
        }
        let hi = self.length - b.length;
        let mut p: u64 = if bytealigned {
            (hi / 8) * 8
        } else {
            hi
        };
        proof {
            lemma_bit_split(hi as int);
            vstd::arithmetic::div_mod::lemma_fundamental_div_mod_converse(
                8 * (hi as int / 8),
                8,
                hi as int / 8,
                0,
            );
            assert forall|q: int|
                p < q && q + nd.len() <= h.len() && q % (step as int) == 0
                implies !#[trigger] matches_at(h, nd, q) by {
                if bytealigned {
                    lemma_bit_split(q);
                    vstd::arithmetic::div_mod::lemma_div_is_ordered(q, hi as int, 8);
                }
            }
        }
        loop
            invariant
                self.inv(),
                b.inv(),
                h == self@,
                nd == b@,
                step == search_step(bytealigned),
                b.length == nd.len(),
                self.length == h.len(),
                b.length <= self.length,
                hi == self.length - b.length,
                p <= hi,
                p % step == 0,
                forall|q: int|
                    p < q && q + nd.len() <= h.len() && q % (step as int) == 0
                        ==> !#[trigger] matches_at(h, nd, q),
            decreases p,
        {
            let piece = self.slice(p, p + b.length);
            if piece == *b {
                proof {
                    assert(matches_at(h, nd, p as int));
                }
                return Some(p);
            }
            proof {
                assert(!matches_at(h, nd, p as int));
                assert forall|q: int|
                    p - step < q && q + nd.len() <= h.len() && q % (step as int) == 0
                    implies !#[trigger] matches_at(h, nd, q) by {
                    if q < p {
                        vstd::arithmetic::div_mod::lemma_fundamental_div_mod(p as int, step as int);
                        vstd::arithmetic::div_mod::lemma_fundamental_div_mod(q, step as int);
                        vstd::arithmetic::div_mod::lemma_fundamental_div_mod_converse(
                            p - q,
                            step as int,
                            p as int / step as int - q / step as int,
                            0,
                        );
                        vstd::arithmetic::div_mod::lemma_small_mod(
                            (p - q) as nat,
                            step as nat,
                        );
                    }
                }
            }
            if p < step {
                return None;
            }
            proof {
                vstd::arithmetic::div_mod::lemma_fundamental_div_mod(p as int, step as int);
                vstd::arithmetic::div_mod::lemma_fundamental_div_mod_converse(
                    p as int - step as int,
                    step as int,
                    p as int / step as int - 1,
                    0,
                );
            }
            p = p - step;
        }
    }

    /// All the match start positions that repeated `find` calls yield, each
    /// search resuming one bit past the previous match's start, in one vector.
    pub fn find_all_rust(&self, b: &Bits, bytealigned: bool) -> (r: Vec<u64>)
        ensures
            r@.map_values(|x: u64| x as int) == find_all_from(
                self@,
                b@,
                0,
                search_step(bytealigned),
            ),
    {
        proof {
            use_type_invariant(self);
            use_type_invariant(b);
        }
        let ghost h = self@;
        let ghost nd = b@;
        let ghost step = search_step(bytealigned);
        let mut out: Vec<u64> = Vec::new();
        let mut start: u64 = 0;
        while start <= self.length
            invariant
                self.inv(),
                b.inv(),
                h == self@,
                nd == b@,
                step == search_step(bytealigned),
                self.length == h.len(),
                start <= self.length + 1,
                find_all_from(h, nd, 0, step) == out@.map_values(|x: u64| x as int)
                    + find_all_from(h, nd, start as int, step),
            decreases self.length + 1 - start,
        {
            let suffix = self.slice(start, self.length);
            let found = suffix.find(b, bytealigned);
            proof {
                lemma_find_from_shift(h, nd, start as int, 0, step);
            }
            match found {
                Some(x) => {
                    let abs = start + x;
                    proof {
                        assert(find_from(h, nd, start as int, step) == Some(abs as int));
                        lemma_find_from_bounds(h, nd, start as int, step);
                        assert((out@.push(abs)).map_values(|v: u64| v as int) =~= out@.map_values(
                            |v: u64| v as int,
                        ).push(abs as int));
                        assert(seq![abs as int] + find_all_from(h, nd, abs as int + 1, step)
                            =~= Seq::<int>::empty().push(abs as int) + find_all_from(
                            h,
                            nd,
                            abs as int + 1,
                            step,
                        ));
                        assert(out@.map_values(|v: u64| v as int) + (seq![abs as int]
                            + find_all_from(h, nd, abs as int + 1, step)) =~= out@.map_values(
                            |v: u64| v as int,
                        ).push(abs as int) + find_all_from(h, nd, abs as int + 1, step));
                    }
                    out.push(abs);
                    start = abs + 1;
                },
                None => {
                    proof {
                        assert(find_all_from(h, nd, start as int, step) =~= Seq::<int>::empty());
                        assert(find_all_from(h, nd, 0, step) =~= out@.map_values(
                            |x: u64| x as int,
                        ));
                    }
                    return out;
                },
            }
        }
        proof {
            assert(find_from(h, nd, start as int, step) is None);
            assert(find_all_from(h, nd, start as int, step) =~= Seq::<int>::empty());
            assert(find_all_from(h, nd, 0, step) =~= out@.map_values(|x: u64| x as int));
        }
        out
    }

    /// The binary digit string of the buffer: one '0' or '1' per live bit.
    pub fn to_bin(&self) -> (r: String)
        ensures
            r@ == bin_chars(self@),
    {
        proof {
            use_type_invariant(self);
        }
        let mut out = String::new();
        let mut j: u64 = 0;
        while j < self.length
            invariant
                self.inv(),
                j <= self.length,
                out@ == bin_chars(self@).take(j as int),
            decreases self.length - j,
        {
            let c = if read_bit(&*self.data, self.offset + j) {
                '1'
            } else {
                '0'
            };
            proof {
                assert(bin_chars(self@).take(j as int + 1) =~= bin_chars(self@).take(
                    j as int,
                ).push(c));
            }
            push_char(&mut out, c);
            j = j + 1;
        }
        proof {
            assert(bin_chars(self@).take(self.length as int) =~= bin_chars(self@));
        }
        out
    }

    /// Parses a binary digit string: one bit per character, rejecting the
    /// first character that is not '0' or '1'.
    pub fn from_bin(binary_string: &str) -> (r: Result<Self, BitsError>)
        requires
            binary_string@.len() <= u64::MAX / 8,
        ensures
            match r {
                Ok(b) => {
                    &&& forall|i: int|
                        0 <= i < binary_string@.len() ==> is_bin_digit(
                            #[trigger] binary_string@[i],
                        )
                    &&& b@ == bin_bits(binary_string@)
                    &&& b.spec_offset() == 0
                    &&& b.spec_length() == binary_string@.len()
                    &&& b.spec_data() == packed_bytes(bin_bits(binary_string@))
                },
                Err(e) => exists|i: int|
                    {
                        &&& 0 <= i < binary_string@.len()
                        &&& !is_bin_digit(#[trigger] binary_string@[i])
                        &&& (forall|j: int| 0 <= j < i ==> is_bin_digit(#[trigger] binary_string@[j]))
                        &&& e == BitsError::InvalidCharacter(binary_string@[i])
                    },
            },
    {
        let ghost s = binary_string@;
        let n = binary_string.unicode_len();
        let mut data: Vec<u8> = Vec::new();
        let mut acc: u8 = 0;
        let mut i: usize = 0;
        proof {
            assert forall|k: u8| k < 8 implies !#[trigger] byte_bit(acc, k) by {
                lemma_zero_byte(k);
            }
        }
        while i < n
            invariant
                s == binary_string@,
                n == s.len(),
                n <= u64::MAX / 8,
                0 <= i <= n,
                forall|j: int| 0 <= j < i ==> is_bin_digit(#[trigger] s[j]),
                data@.len() == i as int / 8,
                forall|p: int| 0 <= p < 8 * (i as int / 8) ==> #[trigger] bit_of(data@, p) == (s[p]
                    == '1'),
                forall|k: u8|
                    k < 8 ==> #[trigger] byte_bit(acc, k) == (8 * (i as int / 8) + k < i && s[8 * (
                    i as int / 8) + k] == '1'),
            decreases n - i,
        {
            let c = binary_string.get_char(i);
            if c != '0' && c != '1' {
                return Err(BitsError::InvalidCharacter(c));
            }
            proof {
                lemma_bit_split(i as int);
            }
            let kk = (i % 8) as u8;
            let ghost oldacc = acc;
            if c == '1' {
                acc = acc | (128u8 >> kk);
                proof {
                    assert forall|k: u8| k < 8 implies #[trigger] byte_bit(acc, k) == (k == kk
                        || byte_bit(oldacc, k)) by {
                        lemma_set_bit(oldacc, kk, k);
                    }
                }
            }
            if kk == 7 {
                proof {
                    vstd::arithmetic::div_mod::lemma_fundamental_div_mod_converse(
                        i as int + 1,
                        8,
                        i as int / 8 + 1,
                        0,
                    );
                    assert forall|p: int|
                        0 <= p < 8 * (i as int / 8) + 8 implies #[trigger] bit_of(
                        data@.push(acc),
                        p,
                    ) == (s[p] == '1') by {
                        if p < 8 * (i as int / 8) {
                            lemma_push_keeps_bits(data@, acc, p);
                        } else {
                            lemma_push_new_byte(data@, acc, p);
                        }
                    }
                }
                data.push(acc);
                acc = 0;
                proof {
                    assert forall|k: u8| k < 8 implies !#[trigger] byte_bit(acc, k) by {
                        lemma_zero_byte(k);
                    }
                }
            } else {
                proof {
                    vstd::arithmetic::div_mod::lemma_fundamental_div_mod_converse(
                        i as int + 1,
                        8,
                        i as int / 8,
                        i as int % 8 + 1,
                    );
                }
            }
            i = i + 1;
        }
        proof {
            lemma_bit_split(n as int);
        }
        if n % 8 != 0 {
            proof {
                assert forall|p: int|
                    0 <= p < 8 * (n as int / 8) + 8 implies #[trigger] bit_of(data@.push(acc), p)
                    == (p < n && s[p] == '1') by {
                    if p < 8 * (n as int / 8) {
                        lemma_push_keeps_bits(data@, acc, p);
                    } else {
                        lemma_push_new_byte(data@, acc, p);
                    }
                }
                vstd::arithmetic::div_mod::lemma_fundamental_div_mod_converse(
                    n as int + 7,
                    8,
                    n as int / 8 + 1,
                    n as int % 8 - 1,
                );
            }
            data.push(acc);
        } else {
            proof {
                vstd::arithmetic::div_mod::lemma_fundamental_div_mod_converse(
                    n as int + 7,
                    8,
                    n as int / 8,
                    7,
                );
            }
        }
        proof {
            assert(vstd::std_specs::vec::spec_vec_len(&data) == data@.len());
        }
        let b = Bits { data: Arc::new(data), offset: 0, length: n as u64 };
        proof {
            assert(b@ =~= bin_bits(s));
            assert forall|p: int| 0 <= p < 8 * data@.len() implies #[trigger] bit_of(data@, p)
                == bit_at(bin_bits(s), p) by {
                assert(bit_at(bin_bits(s), p) == (p < n && s[p] == '1'));
            }
            lemma_packed_bytes_of(data@, bin_bits(s));
        }
        Ok(b)
    }

    /// The lower-case hexadecimal string of the buffer; defined only when
    /// the bit length is a multiple of 4.
    pub fn to_hex(&self) -> (r: Result<String, BitsError>)
        ensures
            match r {
                Ok(s) => {
                    &&& self@.len() % 4 == 0
                    &&& s@ == hex_chars(self@)
                },
                Err(e) => {
                    &&& self@.len() % 4 != 0
                    &&& e == BitsError::InvalidLength(self.spec_length())
                },
            },
    {
        proof {
            use_type_invariant(self);
        }
        if self.length % 4 != 0 {
            return Err(BitsError::InvalidLength(self.length));
        }
        let clipped = self.copy_with_new_offset(0);
        proof {
            use_type_invariant(&clipped);
        }
        let cv: &Vec<u8> = &*clipped.data;
        let ghost v = self@;
        let nib_count = self.length / 4;
        let mut out = String::new();
        let mut i: u64 = 0;
        while i < nib_count
            invariant
                clipped.inv(),
                v == self@,
                clipped@ == v,
                clipped.spec_offset() == 0,
                cv@ == clipped.spec_data(),
                v.len() == self.spec_length(),
                v.len() % 4 == 0,
                nib_count == v.len() / 4,
                8 * nib_count == 2 * v.len(),
                v.len() <= 8 * cv@.len(),
                cv@.len() <= usize::MAX,
                i <= nib_count,
                out@ == hex_chars(v).take(i as int),
            decreases nib_count - i,
        {
            proof {
                vstd::arithmetic::div_mod::lemma_fundamental_div_mod(i as int, 2);
                vstd::arithmetic::div_mod::lemma_mod_division_less_than_divisor(i as int, 2);
            }
            let byte = cv[(i / 2) as usize];
            let nib = if i % 2 == 0 {
                byte >> 4u8
            } else {
                byte & 0x0f
            };
            proof {
                let ii = i as int;
                let q = ii / 2;
                let rm = ii % 2;
                assert forall|k: u8| k < 4 implies #[trigger] nib_bit(nib, k) == v[4 * ii
                    + k] by {
                    lemma_nibbles_of_byte(byte, (4 * rm + k) as u8);
                    lemma_byte_shift(q, 4 * rm + k);
                    assert(bit_of(cv@, 8 * q + 4 * rm + k) == clipped@[4 * ii + k]);
                }
                lemma_nibbles_of_byte(byte, 0);
                lemma_nib_pack(v[4 * ii], v[4 * ii + 1], v[4 * ii + 2], v[4 * ii + 3], 0);
                lemma_nib_pack(v[4 * ii], v[4 * ii + 1], v[4 * ii + 2], v[4 * ii + 3], 1);
                lemma_nib_pack(v[4 * ii], v[4 * ii + 1], v[4 * ii + 2], v[4 * ii + 3], 2);
                lemma_nib_pack(v[4 * ii], v[4 * ii + 1], v[4 * ii + 2], v[4 * ii + 3], 3);
                lemma_nib_unpack(nib);
                assert(nib == nib_val_of(v, ii));
            }
            let c = hex_char_of(nib);
            proof {
                assert(hex_chars(v).take(i as int + 1) =~= hex_chars(v).take(i as int).push(c));
            }
            push_char(&mut out, c);
            i = i + 1;
        }
        proof {
            assert(hex_chars(v).take(nib_count as int) =~= hex_chars(v));
        }
        Ok(out)
    }

    /// Parses a hexadecimal string: four bits per digit. An odd number of
    /// digits is padded with one zero nibble in the store, while the declared
    /// bit length reflects only the original digits. Rejects the first
    /// character that is not a hexadecimal digit, reporting its position.
    pub fn from_hex(hex: &str) -> (r: Result<Self, BitsError>)
        requires
            hex@.len() <= u64::MAX / 32,
        ensures
            match r {
                Ok(b) => {
                    &&& forall|i: int| 0 <= i < hex@.len() ==> is_hex_digit(#[trigger] hex@[i])
                    &&& b@ == hex_bits(hex@)
                    &&& b.spec_offset() == 0
                    &&& b.spec_length() == 4 * hex@.len()
                    &&& b.spec_data() == hex_packed(hex@)
                },
                Err(e) => exists|i: int|
                    {
                        &&& 0 <= i < hex@.len()
                        &&& !is_hex_digit(#[trigger] hex@[i])
                        &&& (forall|j: int| 0 <= j < i ==> is_hex_digit(#[trigger] hex@[j]))
                        &&& e == BitsError::HexDecodeError(hex@[i], i as u64)
                    },
            },
    {
        let ghost s = hex@;
        let n = hex.unicode_len();
        let mut i: usize = 0;
        while i < n
            invariant
                s == hex@,
                n == s.len(),
                0 <= i <= n,
                forall|j: int| 0 <= j < i ==> is_hex_digit(#[trigger] s[j]),
            decreases n - i,
        {
            let c = hex.get_char(i);
            let u = c as u32;
            let ok = (48 <= u && u <= 57) || (97 <= u && u <= 102) || (65 <= u && u <= 70);
            if !ok {
                return Err(BitsError::HexDecodeError(c, i as u64));
            }
            i = i + 1;
        }
        let mut padded = hex.to_owned();
        if n % 2 != 0 {
            padded.append("0");
        }
        proof {
            reveal_strlit("0");
            if n % 2 != 0 {
                assert(padded@ =~= s.push('0'));
            }
        }
        let decoded = hex_decode(padded.as_str());
        proof {
            assert(vstd::std_specs::vec::spec_vec_len(&decoded) == decoded@.len());
        }
        let b = Bits { data: Arc::new(decoded), offset: 0, length: (n as u64) * 4 };
        proof {
            let p = padded@;
            let d = b.data@;
            assert forall|j: int| 0 <= j < 4 * n implies #[trigger] bit_of(d, j) == nib_bit(
                hex_val(s[j / 4]),
                (j % 4) as u8,
            ) by {
                lemma_bit_split(j);
                lemma_quarter_split(j);
                let m = j / 8;
                let k = j % 8;
                let a = hex_val(p[2 * m]);
                let bb = hex_val(p[2 * m + 1]);
                lemma_hex_val_bound(p[2 * m]);
                lemma_hex_val_bound(p[2 * m + 1]);
                lemma_byte_of_nibbles(a, bb, k as u8);
                assert(j / 4 == if k < 4 {
                    2 * m
                } else {
                    2 * m + 1
                });
                assert(p[j / 4] == s[j / 4]);
            }
            assert(b@ =~= hex_bits(s));
            assert forall|m: int| 0 <= m < d.len() implies #[trigger] d[m] == hex_packed(s)[m] by {
                assert(p[2 * m] == s[2 * m]);
                if 2 * m + 1 < s.len() {
                    assert(p[2 * m + 1] == s[2 * m + 1]);
                } else {
                    assert(p[2 * m + 1] == '0');
                    assert(hex_val('0') == 0);
                }
            }
            assert(b.spec_data() =~= hex_packed(s));
        }
        Ok(b)
    }

    /// The octal string of the buffer; defined only when the bit length is a
    /// multiple of 3.
    pub fn to_oct(&self) -> (r: Result<String, BitsError>)
        ensures
            match r {
                Ok(s) => {
                    &&& self@.len() % 3 == 0
                    &&& s@ == oct_chars(self@)
                },
                Err(e) => {
                    &&& self@.len() % 3 != 0
                    &&& e == BitsError::InvalidLength(self.spec_length())
                },
            },
    {
        proof {
            use_type_invariant(self);
        }
        if self.length % 3 != 0 {
            return Err(BitsError::InvalidLength(self.length));
        }
        let ghost v = self@;
        let group_count = self.length / 3;
        proof {
            vstd::arithmetic::div_mod::lemma_fundamental_div_mod(self.length as int, 3);
        }
        let mut out = String::new();
        let mut i: u64 = 0;
        while i < group_count
            invariant
                self.inv(),
                v == self@,
                v.len() == self.spec_length(),
                v.len() % 3 == 0,
                group_count == v.len() / 3,
                3 * group_count == v.len(),
                i <= group_count,
                out@ == oct_chars(v).take(i as int),
            decreases group_count - i,
        {
            let base = self.offset + 3 * i;
            let b0 = read_bit(&*self.data, base);
            let b1 = read_bit(&*self.data, base + 1);
            let b2 = read_bit(&*self.data, base + 2);
            let val = (if b0 {
                4u8
            } else {
                0u8
            }) | (if b1 {
                2u8
            } else {
                0u8
            }) | (if b2 {
                1u8
            } else {
                0u8
            });
            proof {
                let ii = i as int;
                lemma_tri_pack(v[3 * ii], v[3 * ii + 1], v[3 * ii + 2], 0);
                assert(val == tri_val_of(v, ii));
            }
            let c = oct_char_of(val);
            proof {
                assert(oct_chars(v).take(i as int + 1) =~= oct_chars(v).take(i as int).push(c));
            }
            push_char(&mut out, c);
            i = i + 1;
        }
        proof {
            assert(oct_chars(v).take(group_count as int) =~= oct_chars(v));
        }
        Ok(out)
    }

    /// Parses an octal digit string, three bits per digit, routed through
    /// the binary constructor; rejects the first character outside '0'..'7'.
    pub fn from_oct(oct: &str) -> (r: Result<Self, BitsError>)
        requires
            oct@.len() <= u64::MAX / 24,
        ensures
            match r {
                Ok(b) => {
                    &&& forall|i: int| 0 <= i < oct@.len() ==> is_oct_digit(#[trigger] oct@[i])
                    &&& b@ == oct_bits(oct@)
                    &&& b.spec_offset() == 0
                    &&& b.spec_length() == 3 * oct@.len()
                },
                Err(e) => exists|i: int|
                    {
                        &&& 0 <= i < oct@.len()
                        &&& !is_oct_digit(#[trigger] oct@[i])
                        &&& (forall|j: int| 0 <= j < i ==> is_oct_digit(#[trigger] oct@[j]))
                        &&& e == BitsError::InvalidCharacter(oct@[i])
                    },
            },
    {
        let ghost s = oct@;
        let n = oct.unicode_len();
        let mut bin_str = String::new();
        let mut i: usize = 0;
        while i < n
            invariant
                s == oct@,
                n == s.len(),
                n <= u64::MAX / 24,
                0 <= i <= n,
                forall|j: int| 0 <= j < i ==> is_oct_digit(#[trigger] s[j]),
                bin_str@.len() == 3 * i,
                forall|p: int|
                    0 <= p < 3 * i ==> #[trigger] bin_str@[p] == (if tri_bit(
                        oct_val(s[p / 3]),
                        (p % 3) as u8,
                    ) {
                        '1'
                    } else {
                        '0'
                    }),
            decreases n - i,
        {
            let c = oct.get_char(i);
            let u = c as u32;
            if !(48 <= u && u <= 55) {
                return Err(BitsError::InvalidCharacter(c));
            }
            let digit = (u - 48) as u8;
            let c0 = if digit & 4 != 0 {
                '1'
            } else {
                '0'
            };
            let c1 = if digit & 2 != 0 {
                '1'
            } else {
                '0'
            };
            let c2 = if digit & 1 != 0 {
                '1'
            } else {
                '0'
            };
            let ghost oldbin = bin_str@;
            push_char(&mut bin_str, c0);
            push_char(&mut bin_str, c1);
            push_char(&mut bin_str, c2);
            proof {
                lemma_tri_bit_consts(digit);
                assert(digit == oct_val(s[i as int]));
                assert forall|p: int| 3 * i <= p < 3 * i + 3 implies #[trigger] bin_str@[p] == (
                if tri_bit(oct_val(s[p / 3]), (p % 3) as u8) {
                    '1'
                } else {
                    '0'
                }) by {
                    vstd::arithmetic::div_mod::lemma_fundamental_div_mod_converse(
                        p,
                        3,
                        i as int,
                        p - 3 * i,
                    );
                }
            }
            i = i + 1;
        }
        let parsed = Bits::from_bin(bin_str.as_str());
        match parsed {
            Ok(b) => {
                proof {
                    assert forall|p: int| 0 <= p < 3 * n implies #[trigger] bin_bits(bin_str@)[p]
                        == oct_bits(s)[p] by {
                        vstd::arithmetic::div_mod::lemma_fundamental_div_mod(p, 3);
                        vstd::arithmetic::div_mod::lemma_mod_division_less_than_divisor(p, 3);
                    }
                    assert(b@ =~= oct_bits(s));
                }
                Ok(b)
            },
            Err(e) => {
                proof {
                    assert(false);
                }
                Err(e)
            },
        }
    }

    /// A buffer that differs from this one in exactly one bit: the bit at
    /// `index` is written to `value` in a copy of the spanned bytes.
    pub fn set(&self, value: bool, index: u64) -> (r: Result<Self, BitsError>)
        ensures
            match r {
                Ok(b) => {
                    &&& index < self@.len()
                    &&& b@ == self@.update(index as int, value)
                    &&& b.spec_length() == self.spec_length()
                    &&& b.spec_offset() == self.spec_offset() % 8
                },
                Err(e) => {
                    &&& index >= self@.len()
                    &&& e == BitsError::OutOfBounds(index, self.spec_length())
                },
            },
    {
        proof {
            use_type_invariant(self);
            lemma_bit_split(self.offset as int);
            lemma_ceil8((self.offset + self.length) as int);
        }
        if index >= self.length {
            return Err(BitsError::OutOfBounds(index, self.length));
        }
        let sb = self.start_byte();
        let eb = self.end_byte();
        let dv: &Vec<u8> = &*self.data;
        let ghost d = self.data@;
        let ghost o = self.offset as int;
        let ghost l = self.length as int;
        let ghost w = d.subrange(sb as int, eb as int);
        let mut nd = vstd::slice::slice_to_vec(
            vstd::slice::slice_subrange(dv.as_slice(), sb, eb),
        );
        let p = self.offset % 8 + index;
        proof {
            lemma_byte_shift(sb as int, p as int);
            lemma_bit_split(p as int);
        }
        let bi = (p / 8) as usize;
        let old_byte = nd[bi];
        let mask = 128u8 >> ((p % 8) as u8);
        let new_byte = if value {
            old_byte | mask
        } else {
            old_byte & !mask
        };
        nd.set(bi, new_byte);
        let r = Bits { data: Arc::new(nd), offset: self.offset % 8, length: self.length };
        proof {
            assert forall|i: int| 0 <= i < l implies #[trigger] bit_of(r.data@, o % 8 + i) == (
            if i == index {
                value
            } else {
                bit_of(d, o + i)
            }) by {
                let q = o % 8 + i;
                lemma_bit_split(q);
                lemma_byte_shift(sb as int, q);
                if q / 8 == p as int / 8 {
                    if value {
                        lemma_set_bit(old_byte, (p % 8) as u8, (q % 8) as u8);
                    } else {
                        crate::bitmath::lemma_clear_bit(old_byte, (p % 8) as u8, (q % 8) as u8);
                    }
                    lemma_bit_of_subrange(d, sb as int, eb as int, q);
                } else {
                    lemma_bit_of_subrange(d, sb as int, eb as int, q);
                }
            }
            assert(r@ =~= self@.update(index as int, value));
        }
        Ok(r)
    }

    /// The bit at `bit_index`, counted from the start of the live bits.
    pub fn index(&self, bit_index: u64) -> (r: Result<bool, BitsError>)
        ensures
            match r {
                Ok(b) => bit_index < self@.len() && b == self@[bit_index as int],
                Err(e) => {
                    &&& bit_index >= self@.len()
                    &&& e == BitsError::OutOfBounds(bit_index, self.spec_length())
                },
            },
    {
        proof {
            use_type_invariant(self);
        }
        if bit_index >= self.length {
            return Err(BitsError::OutOfBounds(bit_index, self.length));
        }
        let p = bit_index + self.offset;
        Ok(read_bit(&*self.data, p))
    }
}

impl Clone for Bits {
    /// The clone shares the same byte store and has the same value.
    fn clone(&self) -> (r: Self)
        ensures
            r@ == self@,
            r.spec_data() == self.spec_data(),
            r.spec_offset() == self.spec_offset(),
            r.spec_length() == self.spec_length(),
    {
        proof {
            use_type_invariant(self);
        }
        Bits { data: share_store(&self.data), offset: self.offset, length: self.length }
    }
}

impl PartialEq for Bits {
    /// Two buffers are equal iff they hold the same bits in the same order,
    /// whatever their offsets and backing stores.
    fn eq(&self, other: &Bits) -> (r: bool) {
        proof {
            use_type_invariant(self);
            use_type_invariant(other);
        }
        if self.length != other.length {
            proof {
                assert(self@.len() != other@.len());
            }
            return false;
        }
        let mut i: u64 = 0;
        while i < self.length
            invariant
                self.inv(),
                other.inv(),
                self.length == other.length,
                i <= self.length,
                forall|k: int| 0 <= k < i ==> self@[k] == other@[k],
            decreases self.length - i,
        {
            if read_bit(&*self.data, self.offset + i) != read_bit(&*other.data, other.offset + i) {
                proof {
                    assert(self@[i as int] != other@[i as int]);
                }
                return false;
            }
            i = i + 1;
        }
        proof {
            assert(self@ =~= other@);
        }
        true
    }
}

impl Eq for Bits {

}

impl vstd::std_specs::cmp::PartialEqSpecImpl for Bits {
    open spec fn obeys_eq_spec() -> bool {
        true
    }

    open spec fn eq_spec(&self, other: &Bits) -> bool {
        self@ == other@
    }
}

} // verus!
