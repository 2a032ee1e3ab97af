use dat::varint;
use rand::Rng;
use std::usize::MAX;

fn gen_ints(num: usize) -> Vec<usize> {
    let mut rng = rand::thread_rng();
    let mut result: Vec<usize> = Vec::with_capacity(num);
    for _ in 0..num {
        result.push(rng.gen_range(0..MAX))
    }
    result
}

#[test]
fn test_single_byte() {
    let val: usize = 300;
    let vec: Vec<u8> = vec![172, 2];
    let encoded = varint::encode(val);
    let decoded = varint::decode(&encoded);
    assert_eq!(varint::length(val), vec.len());
    assert_eq!(encoded, vec);
    assert_eq!(val, decoded);
}

#[test]
fn test_fuzz() {
    for num in gen_ints(100) {
        let encoded = varint::encode(num);
        let decoded = varint::decode(&encoded);
        assert_eq!(encoded.len(), varint::length(num));
        assert_eq!(num, decoded);
    }
}

#[test]
fn varint_lengths_at_the_group_boundaries() {
    assert_eq!(varint::length(0), 1);
    assert_eq!(varint::length(127), 1);
    assert_eq!(varint::length(128), 2);
    assert_eq!(varint::length(16383), 2);
    assert_eq!(varint::length(16384), 3);
    assert_eq!(varint::length(MAX), 10);
    assert_eq!(varint::encode(128), vec![0x80, 0x01]);
    assert_eq!(varint::encode(0), vec![0]);
    assert_eq!(varint::encode(MAX).len(), 10);
    assert_eq!(varint::decode(&varint::encode(MAX)), MAX);
}

#[test]
fn varint_decode_stops_at_the_first_byte_without_high_bit() {
    assert_eq!(varint::decode(&[0xAC, 0x02, 0xFF, 0xFF]), 300);
    assert_eq!(varint::decode(&[]), 0);
    assert_eq!(varint::decode(&[0x80]), 0);
    assert_eq!(varint::decode(&[0x81]), 1);
}
