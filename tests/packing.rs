use bit_vec::BitVec;
use quoridor::{append, bitvec_to_base64, from_u16, from_u8};

fn bits(b: &BitVec) -> Vec<bool> {
    b.iter().collect()
}

#[test]
fn from_u8_writes_most_significant_first() {
    let b = from_u8(5, 4);
    assert_eq!(bits(&b), vec![false, true, false, true]);
}

#[test]
fn from_u8_keeps_only_the_low_bits() {
    let b = from_u8(0b1011_0110, 3);
    assert_eq!(bits(&b), vec![true, true, false]);
}

#[test]
fn from_u16_ten_bits() {
    let b = from_u16(1023, 10);
    assert_eq!(bits(&b), vec![true; 10]);
    let b = from_u16(1024 + 2, 10);
    assert_eq!(bits(&b), vec![false, false, false, false, false, false, false, false, true, false]);
}

#[test]
fn append_concatenates() {
    let mut a = from_u8(1, 2);
    append(&mut a, from_u8(2, 3));
    assert_eq!(bits(&a), vec![false, true, false, true, false]);
}

#[test]
fn base64_pads_with_zero_bits() {
    let mut b = BitVec::new();
    b.push(true);
    assert_eq!(bitvec_to_base64(b), "g");
}

#[test]
fn base64_full_alphabet_edges() {
    let mut b = from_u8(0, 6);
    append(&mut b, from_u8(25, 6));
    append(&mut b, from_u8(26, 6));
    append(&mut b, from_u8(51, 6));
    append(&mut b, from_u8(52, 6));
    append(&mut b, from_u8(61, 6));
    append(&mut b, from_u8(62, 6));
    append(&mut b, from_u8(63, 6));
    assert_eq!(bitvec_to_base64(b), "AZaz09+/");
}

#[test]
fn base64_of_no_bits_is_one_symbol() {
    assert_eq!(bitvec_to_base64(BitVec::new()), "A");
}
