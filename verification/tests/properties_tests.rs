use bit_rust::bits::Bits;
use bit_rust::BitsError;

#[test]
fn bin_round_trip() {
    let b = Bits::from_hex("0123456789abcdef").unwrap().slice(5, 49);
    let s = b.to_bin();
    let back = Bits::from_bin(&s).unwrap();
    assert_eq!(back, b);
}

#[test]
fn hex_round_trip() {
    let b = Bits::from_hex("0123456789abcdef").unwrap().slice(12, 64);
    let s = b.to_hex().unwrap();
    let back = Bits::from_hex(&s).unwrap();
    assert_eq!(back, b);
}

#[test]
fn oct_round_trip() {
    let b = Bits::from_oct("01234567").unwrap();
    assert_eq!(b.length(), 24);
    let s = b.to_oct().unwrap();
    assert_eq!(s, "01234567");
    let back = Bits::from_oct(&s).unwrap();
    assert_eq!(back, b);
}

#[test]
fn oct_of_slice() {
    let b = Bits::from_bin("111000101").unwrap();
    assert_eq!(b.to_oct().unwrap(), "705");
    let sub = b.slice(3, 9);
    assert_eq!(sub.to_oct().unwrap(), "05");
}

#[test]
fn reverse_of_unaligned_slice() {
    let b = Bits::from_hex("a5c3").unwrap().slice(3, 13);
    let rev = b.reverse();
    assert_eq!(rev.length(), 10);
    assert_eq!(rev.reverse(), b);
}

#[test]
fn invert_of_unaligned_slice() {
    let b = Bits::from_hex("a5c3").unwrap().slice(3, 13);
    let inv = b.invert();
    assert_eq!(inv.length(), b.length());
    assert_eq!(inv.offset(), b.offset());
    assert_eq!(inv.data().len(), b.data().len());
    assert_eq!(inv.invert(), b);
    assert_eq!(b.to_bin(), "0010111000");
    assert_eq!(inv.to_bin(), "1101000111");
}

#[test]
fn join_of_one_buffer_is_that_buffer() {
    let b = Bits::from_hex("cafe").unwrap().slice(3, 11);
    let j = Bits::join(&vec![&b]);
    assert_eq!(j, b);
}

#[test]
fn join_of_nothing_is_empty() {
    let j = Bits::join(&vec![]);
    assert_eq!(j, Bits::from_zeros(0));
    assert_eq!(j.length(), 0);
}

#[test]
fn join_is_associative() {
    let a = Bits::from_bin("1101").unwrap();
    let b = Bits::from_bin("0").unwrap();
    let c = Bits::from_bin("111000111").unwrap();
    let ab = Bits::join(&vec![&a, &b]);
    let left = Bits::join(&vec![&ab, &c]);
    let right = Bits::join(&vec![&a, &b, &c]);
    assert_eq!(left, right);
}

#[test]
fn join_matches_binary_construction() {
    let a = Bits::from_bin("110").unwrap();
    let b = Bits::from_bin("01011").unwrap();
    let c = Bits::from_bin("1").unwrap();
    let j = Bits::join(&vec![&a, &b, &c]);
    let direct = Bits::from_bin("110010111").unwrap();
    assert_eq!(j, direct);
    assert_eq!(*j.data(), *direct.data());
}

#[test]
fn and_length_and_count() {
    let a = Bits::from_hex("f731").unwrap();
    let b = Bits::from_hex("1d0f").unwrap();
    let c = a.and_(&b).unwrap();
    assert_eq!(c.length(), a.length());
    assert_eq!(c.length(), b.length());
    assert!(c.count_ones() <= a.count_ones());
    assert!(c.count_ones() <= b.count_ones());
}

#[test]
fn or_and_xor_values() {
    let a = Bits::from_hex("f0f").unwrap();
    let b = Bits::from_hex("123").unwrap();
    assert_eq!(a.or_(&b).unwrap(), Bits::from_hex("f2f").unwrap());
    assert_eq!(a.xor_(&b).unwrap(), Bits::from_hex("e2c").unwrap());
}

#[test]
fn count_partition() {
    let b = Bits::from_hex("deadbeef").unwrap().slice(5, 27);
    assert_eq!(b.count_ones() + b.count_zeros(), b.length());
    let empty = Bits::from_zeros(0);
    assert_eq!(empty.count_ones() + empty.count_zeros(), 0);
}

#[test]
fn find_needle_longer_than_haystack() {
    let hay = Bits::from_ones(4);
    let needle = Bits::from_ones(5);
    assert_eq!(hay.find(&needle, false), None);
    assert_eq!(hay.find(&needle, true), None);
}

#[test]
fn find_aligned() {
    let hay = Bits::from_hex("0f00ff").unwrap();
    let needle = Bits::from_hex("ff").unwrap();
    assert_eq!(hay.find(&needle, true), Some(16));
    assert_eq!(hay.find(&needle, false), Some(16));
    let nibble = Bits::from_hex("f0").unwrap();
    assert_eq!(hay.find(&nibble, false), Some(4));
    assert_eq!(hay.find(&nibble, true), None);
}

#[test]
fn find_all_non_overlapping() {
    let hay = Bits::from_bin("0110110").unwrap();
    let needle = Bits::from_bin("11").unwrap();
    let positions = hay.find_all_rust(&needle, false);
    assert_eq!(positions, vec![1, 4]);
}

#[test]
fn find_all_overlapping_starts() {
    let hay = Bits::from_bin("1110").unwrap();
    let needle = Bits::from_bin("11").unwrap();
    let positions = hay.find_all_rust(&needle, false);
    assert_eq!(positions, vec![0, 1]);
}

#[test]
fn find_all_none() {
    let hay = Bits::from_zeros(16);
    let needle = Bits::from_ones(3);
    let positions = hay.find_all_rust(&needle, false);
    assert!(positions.is_empty());
}

#[test]
fn error_out_of_bounds() {
    let b = Bits::from_zeros(6);
    assert_eq!(b.index(6), Err(BitsError::OutOfBounds(6, 6)));
    assert_eq!(b.getslice(2, 9).unwrap_err(), BitsError::OutOfBounds(9, 6));
    let too_long = Bits::new(vec![0xff], 4, 5);
    assert_eq!(too_long.unwrap_err(), BitsError::OutOfBounds(4, 8));
}

#[test]
fn error_invalid_character() {
    assert_eq!(
        Bits::from_bin("0102").unwrap_err(),
        BitsError::InvalidCharacter('2')
    );
    assert_eq!(
        Bits::from_oct("0781").unwrap_err(),
        BitsError::InvalidCharacter('8')
    );
}

#[test]
fn error_hex_decode() {
    assert_eq!(
        Bits::from_hex("0ag1").unwrap_err(),
        BitsError::HexDecodeError('g', 2)
    );
}

#[test]
fn error_invalid_length() {
    let b = Bits::from_bin("11100").unwrap();
    assert_eq!(b.to_hex().unwrap_err(), BitsError::InvalidLength(5));
    assert_eq!(b.to_oct().unwrap_err(), BitsError::InvalidLength(5));
}

#[test]
fn error_length_mismatch() {
    let a = Bits::from_zeros(8);
    let b = Bits::from_zeros(9);
    assert_eq!(a.and_(&b).unwrap_err(), BitsError::LengthMismatch(8, 9));
    assert_eq!(a.or_(&b).unwrap_err(), BitsError::LengthMismatch(8, 9));
    assert_eq!(a.xor_(&b).unwrap_err(), BitsError::LengthMismatch(8, 9));
    let empty1 = Bits::from_zeros(0);
    let empty2 = Bits::from_ones(0);
    assert!(empty1.xor_(&empty2).is_ok());
}

#[test]
fn equality_ignores_offset_and_store() {
    let a = Bits::from_hex("0ff0").unwrap().slice(4, 12);
    let b = Bits::from_hex("ff").unwrap();
    assert_eq!(a, b);
    assert_ne!(a, Bits::from_hex("f0").unwrap());
    assert_ne!(a, Bits::from_hex("ff0").unwrap());
}

#[test]
fn to_bytes_rounds_up_and_pads() {
    let b = Bits::from_hex("0123456789").unwrap().slice(12, 28);
    assert_eq!(b.to_bytes(), vec![0x34, 0x56]);
    let whole = Bits::from_bytes(vec![1, 2, 3]);
    assert_eq!(whole.to_bytes(), vec![1, 2, 3]);
    let partial = Bits::from_bin("101").unwrap();
    assert_eq!(partial.to_bytes(), vec![0b10100000]);
    let odd = Bits::from_ones(9);
    assert_eq!(odd.to_bytes(), vec![0xff, 0x80]);
    let empty = Bits::from_zeros(0);
    assert!(empty.to_bytes().is_empty());
}

#[test]
fn odd_hex_pads_store_but_not_length() {
    let b = Bits::from_hex("abc").unwrap();
    assert_eq!(b.length(), 12);
    assert_eq!(*b.data(), vec![0xab, 0xc0]);
    assert_eq!(b.to_hex().unwrap(), "abc");
}

#[test]
fn trim_shares_when_already_tight() {
    let b = Bits::from_bytes(vec![9, 8, 7]);
    let t = b.trim();
    assert_eq!(t, b);
    assert_eq!(t.offset(), 0);
    assert_eq!(t.data().len(), 3);
}

#[test]
fn rfind_scans_backward() {
    let hay = Bits::from_bin("0110110").unwrap();
    let needle = Bits::from_bin("11").unwrap();
    assert_eq!(hay.rfind(&needle, false), Some(4));
    assert_eq!(hay.find(&needle, false), Some(1));
    let long = Bits::from_ones(8);
    assert_eq!(hay.rfind(&long, false), None);
}

#[test]
fn rfind_aligned() {
    let hay = Bits::from_hex("ff00ff00").unwrap();
    let needle = Bits::from_hex("ff").unwrap();
    assert_eq!(hay.rfind(&needle, true), Some(16));
    assert_eq!(hay.rfind(&needle, false), Some(16));
    let hay2 = Bits::from_hex("0ff0").unwrap();
    assert_eq!(hay2.rfind(&needle, false), Some(4));
    assert_eq!(hay2.rfind(&needle, true), None);
}

#[test]
fn set_writes_one_bit() {
    let b = Bits::from_bin("0000").unwrap();
    let s = b.set(true, 2).unwrap();
    assert_eq!(s.to_bin(), "0010");
    let s2 = s.set(false, 2).unwrap();
    assert_eq!(s2.to_bin(), "0000");
    assert_eq!(b.set(true, 4).unwrap_err(), BitsError::OutOfBounds(4, 4));
    let sliced = Bits::from_hex("ffff").unwrap().slice(3, 9);
    let t = sliced.set(false, 0).unwrap();
    assert_eq!(t.to_bin(), "011111");
}

#[test]
fn all_set_and_any_set() {
    assert!(Bits::from_ones(9).all_set());
    assert!(Bits::from_ones(9).any_set());
    assert!(!Bits::from_zeros(9).all_set());
    assert!(!Bits::from_zeros(9).any_set());
    assert!(Bits::from_zeros(0).all_set());
    assert!(!Bits::from_zeros(0).any_set());
    let mixed = Bits::from_bin("0100").unwrap();
    assert!(!mixed.all_set());
    assert!(mixed.any_set());
    assert!(mixed.slice(1, 2).all_set());
}

#[test]
fn invert_swaps_counts() {
    let b = Bits::from_hex("deadbeef").unwrap().slice(5, 27);
    let inv = b.invert();
    assert_eq!(inv.count_ones(), b.count_zeros());
    assert_eq!(inv.count_zeros(), b.count_ones());
}
