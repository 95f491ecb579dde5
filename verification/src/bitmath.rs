//! The bit-level model: how a packed byte store is read as a sequence of
//! bits, and the byte-shuffling facts that the buffer operations rest on.

use vstd::prelude::*;

verus! {

/// True iff bit `k` (counting from the most significant bit) of `x` is set.
pub open spec fn byte_bit(x: u8, k: u8) -> bool
    recommends
        k < 8,
{
    x & (128u8 >> k) != 0
}

/// True iff bit `p` of the byte sequence `d` is set, bits counted from the
/// most significant bit of `d[0]` onward.
pub open spec fn bit_of(d: Seq<u8>, p: int) -> bool
    recommends
        0 <= p < 8 * d.len(),
{
    byte_bit(d[p / 8], (p % 8) as u8)
}

/// The logical bit content of a store `d` read from bit `o` for `l` bits.
pub open spec fn view_of(d: Seq<u8>, o: int, l: int) -> Seq<bool>
    recommends
        0 <= o,
        0 <= l,
        o + l <= 8 * d.len(),
{
    Seq::new(l as nat, |i: int| bit_of(d, o + i))
}

/// The number of set bits in a bit sequence.
pub open spec fn count_trues(s: Seq<bool>) -> nat
    decreases s.len(),
{
    if s.len() == 0 {
        0
    } else {
        count_trues(s.drop_last()) + if s.last() {
            1nat
        } else {
            0nat
        }
    }
}

/// The number of clear bits in a bit sequence.
pub open spec fn count_falses(s: Seq<bool>) -> nat
    decreases s.len(),
{
    if s.len() == 0 {
        0
    } else {
        count_falses(s.drop_last()) + if s.last() {
            0nat
        } else {
            1nat
        }
    }
}

/// Set and clear bits together account for every bit.
pub proof fn lemma_count_partition(s: Seq<bool>)
    ensures
        count_trues(s) + count_falses(s) == s.len(),
    decreases s.len(),
{
    if s.len() > 0 {
        lemma_count_partition(s.drop_last());
    }
}

/// A bit position splits into its byte index and its position in the byte.
pub proof fn lemma_bit_split(p: int)
    requires
        0 <= p,
    ensures
        p == 8 * (p / 8) + p % 8,
        0 <= p % 8 < 8,
        8 * (p / 8) <= p,
{
    vstd::arithmetic::div_mod::lemma_fundamental_div_mod(p, 8);
}

/// Skipping `sb` whole bytes shifts the byte index and keeps the position in
/// the byte.
pub proof fn lemma_byte_shift(sb: int, p: int)
    requires
        0 <= sb,
        0 <= p,
    ensures
        (8 * sb + p) / 8 == sb + p / 8,
        (8 * sb + p) % 8 == p % 8,
{
    lemma_bit_split(p);
    vstd::arithmetic::div_mod::lemma_fundamental_div_mod_converse(
        8 * sb + p,
        8,
        sb + p / 8,
        p % 8,
    );
}

/// `ceil(l / 8)` bytes hold at least `l` and fewer than `l + 8` bits.
pub proof fn lemma_ceil8(l: int)
    requires
        0 <= l,
    ensures
        l <= 8 * ((l + 7) / 8) < l + 8,
        0 <= (l + 7) / 8,
{
    lemma_bit_split(l + 7);
}

/// The pointwise complement of a bit sequence.
pub open spec fn flip_bits(s: Seq<bool>) -> Seq<bool> {
    Seq::new(s.len(), |i: int| !s[i])
}

/// Inverting a byte complements each of its bits.
pub proof fn lemma_invert_byte(x: u8, k: u8)
    by (bit_vector)
    requires
        k < 8,
    ensures
        byte_bit(x ^ 0xffu8, k) == !byte_bit(x, k),
{
}

/// The value of a byte with its bit order reversed.
pub open spec fn rev_byte(x: u8) -> u8 {
    ((x & 0x01) << 7) | ((x & 0x02) << 5) | ((x & 0x04) << 3) | ((x & 0x08) << 1) | ((x & 0x10)
        >> 1) | ((x & 0x20) >> 3) | ((x & 0x40) >> 5) | ((x & 0x80) >> 7)
}

/// Reversing a byte's bits twice gives the byte back.
pub proof fn lemma_rev_byte_involution(x: u8)
    by (bit_vector)
    ensures
        rev_byte(rev_byte(x)) == x,
{
}

/// The store of a reversed buffer: the spanned bytes, each with its bit
/// order reversed, byte order kept.
pub open spec fn rev_store(d: Seq<u8>, o: int, l: int) -> Seq<u8>
    recommends
        0 <= o,
        0 <= l,
        o + l <= 8 * d.len(),
{
    Seq::new(((o + l + 7) / 8 - o / 8) as nat, |j: int| rev_byte(d[o / 8 + j]))
}

/// The offset of a reversed buffer: chosen so the live bits sit mirrored
/// inside the spanned bytes.
pub open spec fn rev_offset(o: int, l: int) -> int {
    if (o + l) % 8 == 0 {
        0
    } else {
        8 - (o + l) % 8
    }
}

/// Extending a bit sequence by one bit adds that bit to the count.
pub proof fn lemma_count_take_step(s: Seq<bool>, j: int)
    requires
        0 <= j < s.len(),
    ensures
        count_trues(s.take(j + 1)) == count_trues(s.take(j)) + if s[j] {
            1int
        } else {
            0int
        },
{
    assert(s.take(j + 1).drop_last() =~= s.take(j));
    assert(s.take(j + 1).last() == s[j]);
}

/// ANDing two bytes ANDs each pair of bits.
pub proof fn lemma_and_byte(x: u8, y: u8, k: u8)
    by (bit_vector)
    requires
        k < 8,
    ensures
        byte_bit(x & y, k) == (byte_bit(x, k) && byte_bit(y, k)),
{
}

/// ORing two bytes ORs each pair of bits.
pub proof fn lemma_or_byte(x: u8, y: u8, k: u8)
    by (bit_vector)
    requires
        k < 8,
    ensures
        byte_bit(x | y, k) == (byte_bit(x, k) || byte_bit(y, k)),
{
}

/// XORing two bytes XORs each pair of bits.
pub proof fn lemma_xor_byte(x: u8, y: u8, k: u8)
    by (bit_vector)
    requires
        k < 8,
    ensures
        byte_bit(x ^ y, k) == (byte_bit(x, k) != byte_bit(y, k)),
{
}

/// Appending a byte leaves the bits of the existing bytes unchanged.
pub proof fn lemma_push_keeps_bits(d: Seq<u8>, b: u8, p: int)
    requires
        0 <= p < 8 * d.len(),
    ensures
        bit_of(d.push(b), p) == bit_of(d, p),
{
    lemma_bit_split(p);
}

/// The bits of an appended byte sit just past the existing bits.
pub proof fn lemma_push_new_byte(d: Seq<u8>, b: u8, p: int)
    requires
        8 * d.len() <= p < 8 * d.len() + 8,
    ensures
        bit_of(d.push(b), p) == byte_bit(b, (p - 8 * d.len()) as u8),
{
    let q = p - 8 * d.len();
    vstd::arithmetic::div_mod::lemma_fundamental_div_mod_converse(q, 8, 0, q);
    lemma_byte_shift(d.len() as int, q);
}

/// The bit at position `p` of a bit sequence, read as 0 past the end.
pub open spec fn bit_at(v: Seq<bool>, p: int) -> bool {
    0 <= p < v.len() && v[p]
}

/// The value of byte `j` when a bit sequence is packed from bit 0, most
/// significant bit first, with the trailing partial byte zero-padded.
pub open spec fn byte_of_bits(v: Seq<bool>, j: int) -> u8 {
    ((if bit_at(v, 8 * j) {
        128int
    } else {
        0int
    }) + (if bit_at(v, 8 * j + 1) {
        64int
    } else {
        0int
    }) + (if bit_at(v, 8 * j + 2) {
        32int
    } else {
        0int
    }) + (if bit_at(v, 8 * j + 3) {
        16int
    } else {
        0int
    }) + (if bit_at(v, 8 * j + 4) {
        8int
    } else {
        0int
    }) + (if bit_at(v, 8 * j + 5) {
        4int
    } else {
        0int
    }) + (if bit_at(v, 8 * j + 6) {
        2int
    } else {
        0int
    }) + (if bit_at(v, 8 * j + 7) {
        1int
    } else {
        0int
    })) as u8
}

/// A bit sequence packed into `ceil(len / 8)` bytes from bit 0, most
/// significant bit first, the trailing partial byte zero-padded.
pub open spec fn packed_bytes(v: Seq<bool>) -> Seq<u8> {
    Seq::new(((v.len() + 7) / 8) as nat, |j: int| byte_of_bits(v, j))
}

/// A byte is the sum of its set bits' place values.
pub proof fn lemma_byte_unpack(x: u8)
    by (bit_vector)
    ensures
        x as int == (if byte_bit(x, 0) {
            128int
        } else {
            0int
        }) + (if byte_bit(x, 1) {
            64int
        } else {
            0int
        }) + (if byte_bit(x, 2) {
            32int
        } else {
            0int
        }) + (if byte_bit(x, 3) {
            16int
        } else {
            0int
        }) + (if byte_bit(x, 4) {
            8int
        } else {
            0int
        }) + (if byte_bit(x, 5) {
            4int
        } else {
            0int
        }) + (if byte_bit(x, 6) {
            2int
        } else {
            0int
        }) + (if byte_bit(x, 7) {
            1int
        } else {
            0int
        }),
{
}

/// Bit `k` of byte `j` of a store is bit `8 * j + k` of the store.
pub proof fn lemma_byte_bit_of(d: Seq<u8>, j: int, k: int)
    requires
        0 <= j < d.len(),
        0 <= k < 8,
    ensures
        byte_bit(d[j], k as u8) == bit_of(d, 8 * j + k),
{
    vstd::arithmetic::div_mod::lemma_fundamental_div_mod_converse(k, 8, 0, k);
    lemma_byte_shift(j, k);
}

/// A store whose every bit reads as the padded bits of `v`, and whose size
/// is `ceil(len / 8)`, is exactly `v` packed.
pub proof fn lemma_packed_bytes_of(d: Seq<u8>, v: Seq<bool>)
    requires
        d.len() == (v.len() + 7) / 8,
        forall|p: int| 0 <= p < 8 * d.len() ==> #[trigger] bit_of(d, p) == bit_at(v, p),
    ensures
        d == packed_bytes(v),
{
    assert forall|j: int| 0 <= j < d.len() implies #[trigger] d[j] == byte_of_bits(v, j) by {
        lemma_byte_unpack(d[j]);
        lemma_byte_bit_of(d, j, 0);
        lemma_byte_bit_of(d, j, 1);
        lemma_byte_bit_of(d, j, 2);
        lemma_byte_bit_of(d, j, 3);
        lemma_byte_bit_of(d, j, 4);
        lemma_byte_bit_of(d, j, 5);
        lemma_byte_bit_of(d, j, 6);
        lemma_byte_bit_of(d, j, 7);
    }
    assert(d =~= packed_bytes(v));
}

/// Masking a byte to its top `e` bits keeps those and clears the rest.
pub proof fn lemma_mask_top(x: u8, e: u8, k: u8)
    by (bit_vector)
    requires
        1 <= e < 8,
        k < 8,
    ensures
        byte_bit(x & !(0xffu8 >> e), k) == (k < e && byte_bit(x, k)),
{
}

/// True iff the needle `nd` occurs in the haystack `h` starting at bit `p`.
pub open spec fn matches_at(h: Seq<bool>, nd: Seq<bool>, p: int) -> bool
    recommends
        0 <= p,
        p + nd.len() <= h.len(),
{
    h.subrange(p, p + nd.len()) == nd
}

/// The bit step between candidate start positions of a search.
pub open spec fn search_step(bytealigned: bool) -> int {
    if bytealigned {
        8
    } else {
        1
    }
}

/// The first position at or after `start`, reached from `start` in strides
/// of `step`, where the needle occurs; `None` if there is none.
pub open spec fn find_from(h: Seq<bool>, nd: Seq<bool>, start: int, step: int) -> Option<int>
    decreases h.len() + step - start,
        when 1 <= step && 0 <= start
{
    if start + nd.len() > h.len() {
        None
    } else if matches_at(h, nd, start) {
        Some(start)
    } else {
        find_from(h, nd, start + step, step)
    }
}

/// Every hit of `find_from` lies between `start` and the last position where
/// the needle still fits, at a stride from `start`.
pub proof fn lemma_find_from_bounds(h: Seq<bool>, nd: Seq<bool>, start: int, step: int)
    requires
        1 <= step,
        0 <= start,
    ensures
        match find_from(h, nd, start, step) {
            Some(p) => start <= p && p + nd.len() <= h.len() && (p - start) % step == 0,
            None => true,
        },
    decreases h.len() + step - start,
{
    if start + nd.len() > h.len() {
    } else if matches_at(h, nd, start) {
        vstd::arithmetic::div_mod::lemma_small_mod(0nat, step as nat);
    } else {
        lemma_find_from_bounds(h, nd, start + step, step);
        if find_from(h, nd, start, step) is Some {
            let p = find_from(h, nd, start, step)->0;
            assert((p - (start + step)) % step == 0);
            vstd::arithmetic::div_mod::lemma_mod_add_multiples_vanish(p - start - step, step);
            assert(p - start == (p - start - step) + step);
        }
    }
}

/// `find_from` returns the first stride-aligned match, and `None` only when
/// no stride-aligned position matches.
pub proof fn lemma_find_from_spec(h: Seq<bool>, nd: Seq<bool>, start: int, step: int)
    requires
        1 <= step,
        0 <= start,
    ensures
        match find_from(h, nd, start, step) {
            Some(p) => {
                &&& start <= p
                &&& p + nd.len() <= h.len()
                &&& (p - start) % step == 0
                &&& matches_at(h, nd, p)
                &&& forall|q: int|
                    start <= q < p && (q - start) % step == 0 ==> !#[trigger] matches_at(h, nd, q)
            },
            None => forall|q: int|
                start <= q && q + nd.len() <= h.len() && (q - start) % step == 0
                    ==> !#[trigger] matches_at(h, nd, q),
        },
    decreases h.len() + step - start,
{
    lemma_find_from_bounds(h, nd, start, step);
    if start + nd.len() > h.len() {
        assert forall|q: int|
            start <= q && q + nd.len() <= h.len() && (q - start) % step == 0 implies !matches_at(
            h,
            nd,
            q,
        ) by {
            assert(q + nd.len() > h.len());
        }
    } else if matches_at(h, nd, start) {
    } else {
        lemma_find_from_spec(h, nd, start + step, step);
        match find_from(h, nd, start, step) {
            Some(p) => {
                assert forall|q: int|
                    start <= q < p && (q - start) % step == 0 implies !#[trigger] matches_at(
                    h,
                    nd,
                    q,
                ) by {
                    lemma_stride_step(start, q, step);
                }
            },
            None => {
                assert forall|q: int|
                    start <= q && q + nd.len() <= h.len() && (q - start) % step == 0
                    implies !#[trigger] matches_at(h, nd, q) by {
                    lemma_stride_step(start, q, step);
                }
            },
        }
    }
}

/// A stride-aligned position past `start` is `start` itself or at least one
/// whole stride further, still stride-aligned from there.
proof fn lemma_stride_step(start: int, q: int, step: int)
    requires
        1 <= step,
        start <= q,
        (q - start) % step == 0,
    ensures
        q == start || (start + step <= q && (q - (start + step)) % step == 0),
{
    if q != start {
        if q < start + step {
            vstd::arithmetic::div_mod::lemma_small_mod((q - start) as nat, step as nat);
        }
        vstd::arithmetic::div_mod::lemma_mod_sub_multiples_vanish(q - start, step);
        assert(-step + (q - start) == q - start - step);
        assert((q - start - step) % step == ((q - start) % step));
    }
}

/// Searching the suffix of a haystack finds the same matches, displaced by
/// where the suffix begins.
pub proof fn lemma_find_from_shift(h: Seq<bool>, nd: Seq<bool>, s: int, q: int, step: int)
    requires
        0 <= s <= h.len(),
        0 <= q,
        1 <= step,
    ensures
        find_from(h, nd, s + q, step) == match find_from(
            h.subrange(s, h.len() as int),
            nd,
            q,
            step,
        ) {
            Some(x) => Some(x + s),
            None => None::<int>,
        },
    decreases h.len() + step - q,
{
    let h2 = h.subrange(s, h.len() as int);
    if q + nd.len() > h2.len() {
    } else {
        assert(h2.subrange(q, q + nd.len()) =~= h.subrange(s + q, s + q + nd.len()));
        assert(matches_at(h2, nd, q) == matches_at(h, nd, s + q));
        if !matches_at(h2, nd, q) {
            lemma_find_from_shift(h, nd, s, q + step, step);
        }
    }
}

/// All the non-overlapping-start match positions from `start` on: each hit,
/// then the hits found again from one bit past the previous hit's start.
pub open spec fn find_all_from(h: Seq<bool>, nd: Seq<bool>, start: int, step: int) -> Seq<int>
    decreases h.len() + 1 - start,
        when 1 <= step && 0 <= start
        via find_all_from_dec
{
    match find_from(h, nd, start, step) {
        None => Seq::empty(),
        Some(p) => seq![p] + find_all_from(h, nd, p + 1, step),
    }
}

#[via_fn]
proof fn find_all_from_dec(h: Seq<bool>, nd: Seq<bool>, start: int, step: int) {
    lemma_find_from_bounds(h, nd, start, step);
}

/// Appending bytes leaves the bits of the existing bytes unchanged.
pub proof fn lemma_append_keeps_bits(d1: Seq<u8>, d2: Seq<u8>, p: int)
    requires
        0 <= p < 8 * d1.len(),
    ensures
        bit_of(d1 + d2, p) == bit_of(d1, p),
{
    lemma_bit_split(p);
}

/// The bits of appended bytes sit just past the existing bits.
pub proof fn lemma_append_new_bits(d1: Seq<u8>, d2: Seq<u8>, p: int)
    requires
        8 * d1.len() <= p < 8 * (d1.len() + d2.len()),
    ensures
        bit_of(d1 + d2, p) == bit_of(d2, p - 8 * d1.len()),
{
    let q = p - 8 * d1.len();
    lemma_bit_split(q);
    lemma_byte_shift(d1.len() as int, q);
}

/// Merging two bytes at a boundary keeps the top `e` bits of the first and
/// the rest of the second.
pub proof fn lemma_merge_boundary(x: u8, y: u8, e: u8, k: u8)
    by (bit_vector)
    requires
        1 <= e < 8,
        k < 8,
    ensures
        byte_bit((x & !(0xffu8 >> e)) | (y & (0xffu8 >> e)), k) == if k < e {
            byte_bit(x, k)
        } else {
            byte_bit(y, k)
        },
{
}

/// Reading a subrange of the store reads the same bits, displaced by the
/// skipped whole bytes.
pub proof fn lemma_bit_of_subrange(d: Seq<u8>, sb: int, eb: int, p: int)
    requires
        0 <= sb <= eb <= d.len(),
        0 <= p < 8 * (eb - sb),
    ensures
        bit_of(d.subrange(sb, eb), p) == bit_of(d, 8 * sb + p),
{
    lemma_byte_shift(sb, p);
    lemma_bit_split(p);
}

/// No bit of a zero byte is set.
pub proof fn lemma_zero_byte(k: u8)
    by (bit_vector)
    requires
        k < 8,
    ensures
        !byte_bit(0u8, k),
{
}

/// Setting one bit of a byte sets that bit and leaves the others alone.
pub proof fn lemma_set_bit(x: u8, j: u8, k: u8)
    by (bit_vector)
    requires
        j < 8,
        k < 8,
    ensures
        byte_bit(x | (128u8 >> j), k) == (k == j || byte_bit(x, k)),
{
}

/// Clearing one bit of a byte clears that bit and leaves the others alone.
pub proof fn lemma_clear_bit(x: u8, j: u8, k: u8)
    by (bit_vector)
    requires
        j < 8,
        k < 8,
    ensures
        byte_bit(x & !(128u8 >> j), k) == (k != j && byte_bit(x, k)),
{
}

/// A bit position splits into its nibble index and its position in the
/// nibble, consistently with its byte split.
pub proof fn lemma_quarter_split(j: int)
    requires
        0 <= j,
    ensures
        j / 4 == 2 * (j / 8) + (j % 8) / 4,
        j % 4 == (j % 8) % 4,
        0 <= (j % 8) / 4 <= 1,
        0 <= (j % 8) % 4 < 4,
{
    lemma_bit_split(j);
    let k = j % 8;
    vstd::arithmetic::div_mod::lemma_fundamental_div_mod(k, 4);
    vstd::arithmetic::div_mod::lemma_fundamental_div_mod_converse(
        j,
        4,
        2 * (j / 8) + k / 4,
        k % 4,
    );
}

/// Merging a left-shifted byte with the spill-over of its successor places
/// each source bit `s` positions earlier.
pub proof fn lemma_left_merge(x: u8, y: u8, s: u8, k: u8)
    by (bit_vector)
    requires
        1 <= s < 8,
        k < 8,
    ensures
        byte_bit((x << s) | (y >> ((8 - s) as u8)), k) == if k + s < 8 {
            byte_bit(x, (k + s) as u8)
        } else {
            byte_bit(y, ((k + s) - 8) as u8)
        },
{
}

/// Merging a right-shifted byte with the spill-over of its predecessor places
/// each source bit `s` positions later.
pub proof fn lemma_right_merge(x: u8, w: u8, s: u8, k: u8)
    by (bit_vector)
    requires
        1 <= s < 8,
        k < 8,
    ensures
        byte_bit((x >> s) | (w << ((8 - s) as u8)), k) == if k >= s {
            byte_bit(x, (k - s) as u8)
        } else {
            byte_bit(w, ((k + 8) - s) as u8)
        },
{
}

} // verus!
