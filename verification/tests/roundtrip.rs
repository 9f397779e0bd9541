//! Bit conversions and the length-prefixed wire format.

use gmw::bits::{byte_from_bits, byte_to_bits, from_bits, to_bits};
use gmw::bitseq::BitVec;
use gmw::prg::Prg;

#[test]
fn byte_to_bits_sanity() {
    let expected = vec![false, false, true, false, false, false, false, false];
    assert_eq!(byte_to_bits(0x04), expected);
    assert_eq!(byte_from_bits(&byte_to_bits(0x04)), 0x04);
}

#[test]
fn to_bits_sanity() {
    let input: i32 = 1;
    let mut expected = vec![false; 32];
    expected[0] = true;
    assert_eq!(to_bits(&input.to_le_bytes()), expected)
}

#[test]
fn from_bits_round_trip() {
    let bytes: Vec<u8> = vec![0x00, 0x01, 0x7f, 0x80, 0xff, 0x42];
    assert_eq!(from_bits(&to_bits(&bytes)), bytes);
}

fn bitvec_of(bits: &[bool]) -> BitVec {
    let mut bv = BitVec::new();
    for b in bits {
        bv.push(*b);
    }
    bv
}

#[test]
fn serialization_size() {
    // the wire format carries an 8-byte count, then one byte for 8 bits
    let bv = BitVec::zero(8);
    let mut channel = Vec::new();
    bv.write(&mut channel);
    assert_eq!(channel.len(), 9);
    assert_eq!(bv, BitVec::read(channel.as_slice()).unwrap().0);
}

#[test]
fn serialize_deserialize() {
    let mut prg = Prg::new();
    let bv = BitVec::random(&mut prg, rand::random::<u8>() as usize);
    let mut channel = Vec::new();
    bv.write(&mut channel);
    assert_eq!(BitVec::read(channel.as_slice()).unwrap().0, bv);
}

#[test]
fn wire_round_trip_lengths() {
    // the round-trip law, exercised on the named lengths
    let mut prg = Prg::from_seed(7, 9);
    for len in [0usize, 1, 7, 8, 9, 64, 1000] {
        let bv = BitVec::random(&mut prg, len);
        let mut buf = Vec::new();
        bv.write(&mut buf);
        let (back, used) = BitVec::read(buf.as_slice()).unwrap();
        assert_eq!(used, buf.len());
        assert_eq!(back, bv);
    }
}

#[test]
fn wire_round_trip_exact_bytes() {
    // 13 bits: count 13 little-endian over 8 bytes, then 2 packed bytes
    let bits = [
        true, false, true, true, false, false, true, true, true, false, true, false, true,
    ];
    let bv = bitvec_of(&bits);
    let mut buf = Vec::new();
    bv.write(&mut buf);
    assert_eq!(buf, vec![13, 0, 0, 0, 0, 0, 0, 0, 0xcd, 0x15]);
    let (back, used) = BitVec::read(buf.as_slice()).unwrap();
    assert_eq!(used, 10);
    assert_eq!(back, bv);
}

#[test]
fn read_ignores_trailing_bytes() {
    let bv = BitVec::one(9);
    let mut buf = Vec::new();
    bv.write(&mut buf);
    buf.push(0xaa);
    buf.push(0x55);
    let (back, used) = BitVec::read(buf.as_slice()).unwrap();
    assert_eq!(used, buf.len() - 2);
    assert_eq!(back, bv);
}

#[test]
fn read_short_header_is_format_error() {
    assert_eq!(BitVec::read(&[1, 2, 3]).unwrap_err(), gmw::Error::FormatError);
}

#[test]
fn read_truncated_payload_is_format_error() {
    // a count of 100 bits with no payload behind it
    let buf = vec![100, 0, 0, 0, 0, 0, 0, 0];
    assert_eq!(BitVec::read(buf.as_slice()).unwrap_err(), gmw::Error::FormatError);
}

#[test]
fn xor_assign_is_bitwise() {
    let a = bitvec_of(&[true, false, true, false]);
    let b = bitvec_of(&[true, true, false, false]);
    let mut x = a.clone();
    x.xor_assign(&b);
    assert_eq!(x, bitvec_of(&[false, true, true, false]));
    // XOR twice restores the original
    x.xor_assign(&b);
    assert_eq!(x, a);
}

#[test]
fn fill_and_repeat() {
    let mut bv = BitVec::repeat(true, 5);
    assert_eq!(bv, BitVec::one(5));
    bv.fill(false);
    assert_eq!(bv, BitVec::zero(5));
    assert_eq!(bv.len(), 5);
}

#[test]
fn prg_seed_is_deterministic() {
    let mut p1 = Prg::from_seed(11, 22);
    let mut p2 = Prg::from_seed(11, 22);
    for _ in 0..64 {
        assert_eq!(p1.rand_bool(), p2.rand_bool());
    }
}
