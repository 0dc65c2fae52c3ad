use prover::symbol::{pack, unpack, RadixProfile};

fn word_of(v: u128) -> [u8; 32] {
    let mut w = [0u8; 32];
    w[16..].copy_from_slice(&v.to_be_bytes());
    w
}

#[test]
fn test_pack() {
    let x: Vec<u8> = vec![
        0, 3, 2, 1, 0, 0, 1, 2, 3, 3, 2, 1, 2, 3, 1, 2, 3, 3, 0, 0, 1, 1, 2, 2, 3, 3, 0,
    ];
    let ops = RadixProfile::operations();
    let y = unpack(&pack(&x, &ops), &ops, x.len());
    assert_eq!(x, y);

    let x: Vec<u8> = vec![0, 12, 13, 15, 20, 1, 2, 3, 57, 58, 59, 20, 20, 0];
    let pieces = RadixProfile::pieces();
    let y = unpack(&pack(&x, &pieces), &pieces, x.len());
    assert_eq!(x, y);
}

#[test]
fn pack_gives_positional_value() {
    let ops = RadixProfile::operations();
    assert_eq!(pack(&[1, 2, 3], &ops), word_of(1 + 2 * 4 + 3 * 16));
    let pieces = RadixProfile::pieces();
    assert_eq!(pack(&[5, 63], &pieces), word_of(5 + 63 * 64));
    assert_eq!(pack(&[], &pieces), [0u8; 32]);
}

#[test]
fn pack_of_full_transcript_fills_ninety_six_bits() {
    let ops = RadixProfile::operations();
    let all = vec![3u8; 48];
    assert_eq!(pack(&all, &ops), word_of((1u128 << 96) - 1));
}

#[test]
fn unpack_pads_with_zeros() {
    let ops = RadixProfile::operations();
    let w = pack(&[1, 2], &ops);
    assert_eq!(unpack(&w, &ops, 5), vec![1, 2, 0, 0, 0]);
    assert_eq!(unpack(&[0u8; 32], &ops, 3), vec![0, 0, 0]);
}

#[test]
fn unpack_reads_digits_least_significant_first() {
    let pieces = RadixProfile::pieces();
    assert_eq!(unpack(&word_of(7 + 9 * 64 + 63 * 64 * 64), &pieces, 3), vec![7, 9, 63]);
}

#[test]
fn radix_profiles() {
    assert_eq!(RadixProfile::operations().radix(), 4);
    assert_eq!(RadixProfile::pieces().radix(), 64);
    assert_eq!(RadixProfile::new(8).unwrap().radix(), 256);
    assert!(RadixProfile::new(0).is_none());
    assert!(RadixProfile::new(9).is_none());
    assert_eq!(RadixProfile::new(2), Some(RadixProfile::operations()));
}
