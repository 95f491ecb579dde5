//! The laws of the buffer operations: properties that relate several
//! operations, stated over the same spec functions their contracts use.

use crate::bitmath::{
    count_falses, count_trues, find_all_from, find_from, flip_bits, lemma_bit_of_subrange,
    lemma_bit_split,
    lemma_byte_shift, lemma_ceil8, lemma_find_from_bounds, lemma_find_from_spec,
    lemma_rev_byte_involution, matches_at, rev_offset, rev_store, view_of,
};
use crate::radix::{
    bin_bits, bin_chars, hex_bits, hex_chars, is_bin_digit, is_hex_digit, is_oct_digit,
    lemma_hex_char_val, lemma_nib_pack, lemma_oct_char_val, lemma_tri_pack, nib_val_of, oct_bits,
    oct_chars, tri_val_of,
};
use vstd::prelude::*;

verus! {

/// Writing a bit sequence as a binary digit string and reading it back
/// gives the original bits, and the written string is always readable.
pub proof fn lemma_bin_round_trip(v: Seq<bool>)
    ensures
        forall|i: int| 0 <= i < bin_chars(v).len() ==> is_bin_digit(#[trigger] bin_chars(v)[i]),
        bin_bits(bin_chars(v)) == v,
{
    assert(bin_bits(bin_chars(v)) =~= v);
}

/// Writing a bit sequence whose length is a multiple of 4 as a hexadecimal
/// string and reading it back gives the original bits, and the written
/// string is always readable.
pub proof fn lemma_hex_round_trip(v: Seq<bool>)
    requires
        v.len() % 4 == 0,
    ensures
        forall|i: int| 0 <= i < hex_chars(v).len() ==> is_hex_digit(#[trigger] hex_chars(v)[i]),
        hex_bits(hex_chars(v)) == v,
{
    vstd::arithmetic::div_mod::lemma_fundamental_div_mod(v.len() as int, 4);
    assert forall|i: int| 0 <= i < hex_chars(v).len() implies is_hex_digit(
        #[trigger] hex_chars(v)[i],
    ) by {
        lemma_nib_pack(v[4 * i], v[4 * i + 1], v[4 * i + 2], v[4 * i + 3], 0);
        lemma_hex_char_val(nib_val_of(v, i));
    }
    assert forall|p: int| 0 <= p < v.len() implies #[trigger] hex_bits(hex_chars(v))[p]
        == v[p] by {
        vstd::arithmetic::div_mod::lemma_fundamental_div_mod(p, 4);
        vstd::arithmetic::div_mod::lemma_mod_division_less_than_divisor(p, 4);
        let i = p / 4;
        let k = (p % 4) as u8;
        lemma_nib_pack(v[4 * i], v[4 * i + 1], v[4 * i + 2], v[4 * i + 3], k);
        lemma_hex_char_val(nib_val_of(v, i));
    }
    assert(hex_bits(hex_chars(v)) =~= v);
}

/// Writing a bit sequence whose length is a multiple of 3 as an octal
/// string and reading it back gives the original bits, and the written
/// string is always readable.
pub proof fn lemma_oct_round_trip(v: Seq<bool>)
    requires
        v.len() % 3 == 0,
    ensures
        forall|i: int| 0 <= i < oct_chars(v).len() ==> is_oct_digit(#[trigger] oct_chars(v)[i]),
        oct_bits(oct_chars(v)) == v,
{
    vstd::arithmetic::div_mod::lemma_fundamental_div_mod(v.len() as int, 3);
    assert forall|i: int| 0 <= i < oct_chars(v).len() implies is_oct_digit(
        #[trigger] oct_chars(v)[i],
    ) by {
        lemma_tri_pack(v[3 * i], v[3 * i + 1], v[3 * i + 2], 0);
        lemma_oct_char_val(tri_val_of(v, i));
    }
    assert forall|p: int| 0 <= p < v.len() implies #[trigger] oct_bits(oct_chars(v))[p]
        == v[p] by {
        vstd::arithmetic::div_mod::lemma_fundamental_div_mod(p, 3);
        vstd::arithmetic::div_mod::lemma_mod_division_less_than_divisor(p, 3);
        let i = p / 3;
        let k = (p % 3) as u8;
        lemma_tri_pack(v[3 * i], v[3 * i + 1], v[3 * i + 2], k);
        lemma_oct_char_val(tri_val_of(v, i));
    }
    assert(oct_bits(oct_chars(v)) =~= v);
}

/// Reversing a buffer twice gives a buffer with the original bit content:
/// the store, offset and length that two applications of the reversal
/// produce read back as the bits of the original.
pub proof fn lemma_reverse_involution(d: Seq<u8>, o: int, l: int)
    requires
        0 <= o,
        0 <= l,
        o + l <= 8 * d.len(),
    ensures
        ({
            let d1 = rev_store(d, o, l);
            let o1 = rev_offset(o, l);
            view_of(rev_store(d1, o1, l), rev_offset(o1, l), l) == view_of(d, o, l)
        }),
{
    let sb = o / 8;
    let eb = (o + l + 7) / 8;
    let n = eb - sb;
    let ob = o % 8;
    lemma_bit_split(o);
    lemma_ceil8(o + l);
    lemma_byte_shift(sb, ob + l);
    lemma_byte_shift(sb, ob + l + 7);
    lemma_ceil8(ob + l);
    let r = (ob + l) % 8;
    vstd::arithmetic::div_mod::lemma_fundamental_div_mod(ob + l, 8);
    if r == 0 {
        vstd::arithmetic::div_mod::lemma_fundamental_div_mod_converse(
            ob + l + 7,
            8,
            (ob + l) / 8,
            7,
        );
    } else {
        vstd::arithmetic::div_mod::lemma_fundamental_div_mod_converse(
            ob + l + 7,
            8,
            (ob + l) / 8 + 1,
            r - 1,
        );
    }
    let o1 = rev_offset(o, l);
    assert(o1 == 8 * n - (ob + l));
    let d1 = rev_store(d, o, l);
    assert(d1.len() == n);
    vstd::arithmetic::div_mod::lemma_fundamental_div_mod_converse(o1, 8, 0, o1);
    vstd::arithmetic::div_mod::lemma_fundamental_div_mod_converse(o1 + l + 7, 8, n, 7 - ob);
    let d2 = rev_store(d1, o1, l);
    assert(d2.len() == n);
    assert forall|j: int| 0 <= j < n implies #[trigger] d2[j] == d[sb + j] by {
        lemma_rev_byte_involution(d[sb + j]);
    }
    let o2 = rev_offset(o1, l);
    if ob == 0 {
        vstd::arithmetic::div_mod::lemma_fundamental_div_mod_converse(8 * n, 8, n, 0);
    } else {
        vstd::arithmetic::div_mod::lemma_fundamental_div_mod_converse(8 * n - ob, 8, n - 1, 8 - ob);
    }
    assert(o2 == ob);
    assert(d2 =~= d.subrange(sb, eb));
    assert forall|j: int| 0 <= j < l implies #[trigger] view_of(d2, o2, l)[j] == view_of(
        d,
        o,
        l,
    )[j] by {
        lemma_bit_of_subrange(d, sb, eb, ob + j);
    }
    assert(view_of(d2, o2, l) =~= view_of(d, o, l));
}

/// Complementing every bit twice gives the original bits back.
pub proof fn lemma_invert_involution(v: Seq<bool>)
    ensures
        flip_bits(flip_bits(v)) == v,
{
    assert(flip_bits(flip_bits(v)) =~= v);
}

/// Complementing every bit turns set bits into clear ones: the inverted
/// sequence has as many set bits as the original has clear bits.
pub proof fn lemma_count_flip(v: Seq<bool>)
    ensures
        count_trues(flip_bits(v)) == count_falses(v),
    decreases v.len(),
{
    if v.len() > 0 {
        assert(flip_bits(v).drop_last() =~= flip_bits(v.drop_last()));
        lemma_count_flip(v.drop_last());
    }
}

/// Joining a single buffer gives that buffer's bits.
pub proof fn lemma_join_singleton(x: Seq<bool>)
    ensures
        seq![x].flatten() == x,
{
    seq![x].lemma_flatten_one_element();
}

/// Joining no buffers gives the empty bit sequence.
pub proof fn lemma_join_empty()
    ensures
        Seq::<Seq<bool>>::empty().flatten() == Seq::<bool>::empty(),
{
}

/// Joining is associative: joining a joined pair with a third buffer gives
/// the same bits as joining all three at once.
pub proof fn lemma_join_associative(a: Seq<bool>, b: Seq<bool>, c: Seq<bool>)
    ensures
        seq![seq![a, b].flatten(), c].flatten() == seq![a, b, c].flatten(),
{
    let ab = seq![a, b].flatten();
    assert(seq![a, b] =~= seq![a].push(b));
    seq![a].lemma_flatten_push(b);
    seq![a].lemma_flatten_one_element();
    assert(ab == a + b);
    assert(seq![ab, c] =~= seq![ab].push(c));
    seq![ab].lemma_flatten_push(c);
    seq![ab].lemma_flatten_one_element();
    assert(seq![a, b, c] =~= seq![a, b].push(c));
    seq![a, b].lemma_flatten_push(c);
    assert(seq![seq![a, b].flatten(), c].flatten() =~= seq![a, b, c].flatten());
}

/// A sequence with no more set bits at each position has no more set bits
/// in total.
proof fn lemma_count_pointwise_le(s: Seq<bool>, t: Seq<bool>)
    requires
        s.len() == t.len(),
        forall|i: int| 0 <= i < s.len() ==> (#[trigger] s[i] ==> t[i]),
    ensures
        count_trues(s) <= count_trues(t),
    decreases s.len(),
{
    if s.len() > 0 {
        lemma_count_pointwise_le(s.drop_last(), t.drop_last());
    }
}

/// ANDing two equal-length bit sequences keeps the length and sets no more
/// bits than either operand has set.
pub proof fn lemma_and_count(a: Seq<bool>, b: Seq<bool>)
    requires
        a.len() == b.len(),
    ensures
        ({
            let c = Seq::new(a.len(), |i: int| a[i] && b[i]);
            &&& c.len() == a.len()
            &&& count_trues(c) <= count_trues(a)
            &&& count_trues(c) <= count_trues(b)
        }),
{
    let c = Seq::new(a.len(), |i: int| a[i] && b[i]);
    lemma_count_pointwise_le(c, a);
    lemma_count_pointwise_le(c, b);
}

/// Every position that the search-all operation yields is a true match, the
/// positions come strictly increasing, and each lies where the needle fits.
pub proof fn lemma_find_all_sound(h: Seq<bool>, nd: Seq<bool>, start: int, step: int)
    requires
        0 <= start,
        1 <= step,
    ensures
        ({
            let fa = find_all_from(h, nd, start, step);
            &&& forall|m: int|
                0 <= m < fa.len() ==> start <= #[trigger] fa[m] && fa[m] + nd.len() <= h.len()
                    && matches_at(h, nd, fa[m])
            &&& forall|m: int| 0 <= m < fa.len() - 1 ==> #[trigger] fa[m] < fa[m + 1]
        }),
    decreases h.len() + 1 - start,
{
    lemma_find_from_bounds(h, nd, start, step);
    lemma_find_from_spec(h, nd, start, step);
    match find_from(h, nd, start, step) {
        None => {},
        Some(p) => {
            lemma_find_all_sound(h, nd, p + 1, step);
            let rest = find_all_from(h, nd, p + 1, step);
            let fa = find_all_from(h, nd, start, step);
            assert(fa == seq![p] + rest);
            assert(forall|m: int| 0 <= m < rest.len() ==> #[trigger] fa[m + 1] == rest[m]);
        },
    }
}

/// With a one-bit step, the search-all operation yields every match
/// position: any place the needle occurs is in the yielded sequence.
pub proof fn lemma_find_all_complete(h: Seq<bool>, nd: Seq<bool>, start: int, q: int)
    requires
        0 <= start <= q,
        q + nd.len() <= h.len(),
        matches_at(h, nd, q),
    ensures
        find_all_from(h, nd, start, 1).contains(q),
    decreases h.len() + 1 - start,
{
    lemma_find_from_bounds(h, nd, start, 1);
    lemma_find_from_spec(h, nd, start, 1);
    vstd::arithmetic::div_mod::lemma_fundamental_div_mod(q - start, 1);
    vstd::arithmetic::div_mod::lemma_mod_division_less_than_divisor(q - start, 1);
    match find_from(h, nd, start, 1) {
        None => {
            assert(false);
        },
        Some(p) => {
            let fa = find_all_from(h, nd, start, 1);
            let rest = find_all_from(h, nd, p + 1, 1);
            assert(fa == seq![p] + rest);
            if q == p {
                assert(fa[0] == q);
            } else {
                assert(p < q);
                lemma_find_all_complete(h, nd, p + 1, q);
                let m = choose|m: int| 0 <= m < rest.len() && rest[m] == q;
                assert(fa[m + 1] == q);
            }
        },
    }
}

} // verus!


