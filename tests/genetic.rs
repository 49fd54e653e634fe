use bit_vec::BitVec;
use exprolution::genetic::{
    bitstring, cross_bits, crossover_bits, crossover_with, decode, flip_bits, from_binary, get_symbol,
    mutate_bits, randbit, random_bits, to_binary,
};

fn bits(s: &str) -> BitVec {
    let mut b = BitVec::new();
    for c in s.chars() {
        b.push(c == '1');
    }
    b
}

#[test]
fn symbols_of_nibbles() {
    assert_eq!(get_symbol(0), "0");
    assert_eq!(get_symbol(9), "9");
    assert_eq!(get_symbol(10), "+");
    assert_eq!(get_symbol(11), "-");
    assert_eq!(get_symbol(12), "*");
    assert_eq!(get_symbol(13), "/");
    assert_eq!(get_symbol(14), "**");
    assert_eq!(get_symbol(15), "");
}

#[test]
fn decode_whole_bytes() {
    assert_eq!(decode(&BitVec::from_bytes(&[0x1a, 0x2f])), "1+2");
    assert_eq!(decode(&BitVec::from_bytes(&[0x2e, 0x3d, 0x4c])), "2**3/4*");
}

#[test]
fn decode_pads_with_zero_bits() {
    assert_eq!(decode(&bits("")), "");
    assert_eq!(decode(&bits("0001")), "10");
    assert_eq!(decode(&bits("000110")), "18");
    assert_eq!(decode(&bits("0001101011")), "1+*0");
}

#[test]
fn cut_and_join() {
    let (c1, c2) = cross_bits(&bits("1111"), &bits("000000"), 2);
    assert_eq!(bitstring(&c1), "110000");
    assert_eq!(bitstring(&c2), "0011");
    let (c1, c2) = cross_bits(&bits("101"), &bits("0000000"), 5);
    assert_eq!(bitstring(&c1), "10100");
    assert_eq!(bitstring(&c2), "00000");
}

#[test]
fn crossover_keeps_lengths_and_content() {
    let a = bits("110010101111");
    let b = bits("00110");
    for _ in 0..50 {
        let (c1, c2) = crossover_bits(&a, &b);
        assert!(c1.len() <= 12 && c2.len() <= 12);
        assert_eq!(c1.len() + c2.len(), 17);
        let mut ones = c1.iter().filter(|x| *x).count();
        ones += c2.iter().filter(|x| *x).count();
        assert_eq!(ones, 10);
    }
}

#[test]
fn crossover_of_empty_strings() {
    let (c1, c2) = crossover_bits(&BitVec::new(), &BitVec::new());
    assert!(c1.is_empty() && c2.is_empty());
}

#[test]
fn flips_where_marked() {
    let r = flip_bits(&bits("1100"), &vec![true, false, true, false]);
    assert_eq!(bitstring(&r), "0110");
}

#[test]
fn mutation_keeps_length() {
    let b = bits("1010101010101010");
    assert_eq!(mutate_bits(&b).len(), 16);
}

#[test]
fn random_bits_are_whole_groups() {
    for _ in 0..50 {
        let b = random_bits();
        assert_eq!(b.len() % 4, 0);
        assert!(b.len() >= 12 && b.len() < 404);
    }
    let _ = randbit();
}

#[test]
fn binary_conversions() {
    assert_eq!(bitstring(&to_binary(0x0102)), "0000001000000001");
    assert_eq!(bitstring(&to_binary(0)), "");
    assert_eq!(from_binary(&bits("0000001000000001")), 0x0201);
    assert_eq!(from_binary(&bits("1")), 0x80);
    assert_eq!(from_binary(&BitVec::new()), 0);
}

#[test]
fn crossing_follows_the_coin() {
    let (c1, c2) = crossover_with(&bits("1111"), &bits("000000"), true, 2);
    assert_eq!(bitstring(&c1), "110000");
    assert_eq!(bitstring(&c2), "0011");
    let (c1, c2) = crossover_with(&bits("1111"), &bits("000000"), false, 2);
    assert_eq!(bitstring(&c1), "1111");
    assert_eq!(bitstring(&c2), "000000");
}
