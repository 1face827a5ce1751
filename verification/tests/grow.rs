use bitpack::BitPack;

#[test]
fn test_lowbit() {
    let mut bitpack_vec = BitPack::<Vec<u8>>::with_capacity(1);
    bitpack_vec.write(1, 1).unwrap();
    bitpack_vec.write(0, 1).unwrap();
    bitpack_vec.write(0, 1).unwrap();
    bitpack_vec.write(1, 1).unwrap();

    let mut bitpack = BitPack::<&[u8]>::new(bitpack_vec.as_slice());
    assert_eq!(bitpack.read(1).unwrap(), 1);
    assert_eq!(bitpack.read(1).unwrap(), 0);
    assert_eq!(bitpack.read(1).unwrap(), 0);
    assert_eq!(bitpack.read(1).unwrap(), 1);
}

#[test]
fn vec_test_bigbit() {
    let mut bitpack_vec = BitPack::<Vec<u8>>::with_capacity(8);
    bitpack_vec.write(255, 8).unwrap();
    bitpack_vec.write(65535, 16).unwrap();
    bitpack_vec.write(65535, 16).unwrap();
    bitpack_vec.write(255, 8).unwrap();
    bitpack_vec.write(65535, 16).unwrap();

    let mut bitpack = BitPack::<&[u8]>::new(bitpack_vec.as_slice());
    assert_eq!(bitpack.read(8).unwrap(), 255);
    assert_eq!(bitpack.read(16).unwrap(), 65535);
    assert_eq!(bitpack.read(16).unwrap(), 65535);
    assert_eq!(bitpack.read(8).unwrap(), 255);
    assert_eq!(bitpack.read(16).unwrap(), 65535);
}

#[test]
fn test_morelowbit() {
    let input = [
        1, 0, 0, 1, 0, 0, 1, 0, 0, 1, 0, 1, 1, 1, 1, 0, 0, 1, 1, 0, 1, 1, 1, 0, 0, 0, 1, 1, 0, 1,
        0, 0, 0, 1, 0, 0, 1, 0, 0, 1, 0, 0, 0, 1, 0, 1, 1, 0, 0, 1, 1, 1, 0, 0, 0, 0, 0, 0, 0, 1,
    ];

    let mut bitpack_vec = BitPack::<Vec<u8>>::with_capacity(8);
    for &b in &input[..] {
        bitpack_vec.write(b, 1).unwrap();
    }

    let mut bitpack = BitPack::<&[u8]>::new(bitpack_vec.as_slice());
    for &b in &input[..] {
        assert_eq!(bitpack.read(1).unwrap(), b);
    }
}

#[test]
fn test_growth_exact() {
    // Writing n bits in all against an empty growable buffer yields exactly
    // ceil(n / 8) bytes, with the bits past the last written one zero.
    let mut bitpack_vec = BitPack::<Vec<u8>>::default();
    bitpack_vec.write(0x7, 3).unwrap();
    assert_eq!(bitpack_vec.as_slice().len(), 1);
    bitpack_vec.write(0x1ff, 9).unwrap();
    assert_eq!(bitpack_vec.as_slice().len(), 2);
    bitpack_vec.write(0, 1).unwrap();
    assert_eq!(bitpack_vec.as_slice().len(), 2);
    bitpack_vec.write(0x3, 2).unwrap();
    let total_bits = 3 + 9 + 1 + 2;
    assert_eq!(bitpack_vec.as_slice().len(), (total_bits + 7) / 8);
    // 15 bits written: 0b111, 0b111111111, 0b0, 0b11 -> fff with bit 12 clear.
    assert_eq!(bitpack_vec.as_slice(), [0xff, 0x6f]);
    let vec = bitpack_vec.into_vec();
    assert_eq!(vec, vec![0xff, 0x6f]);
}

#[test]
fn test_grow_width_too_large() {
    let mut bitpack_vec = BitPack::<Vec<u8>>::default();
    assert_eq!(bitpack_vec.write(1, 33), Err(33));
    assert_eq!(bitpack_vec.as_slice().len(), 0);
    assert_eq!(bitpack_vec.sum_bits(), 0);
}

#[test]
fn test_grow_doc_scenario() {
    let mut bitpack_vec = BitPack::<Vec<u8>>::with_capacity(2);
    bitpack_vec.write(10, 4).unwrap();
    bitpack_vec.write(1021, 10).unwrap();
    bitpack_vec.write(3, 2).unwrap();

    assert_eq!(bitpack_vec.as_slice(), [218, 255]);

    let mut bitpack = BitPack::<&[u8]>::new(bitpack_vec.as_slice());
    assert_eq!(bitpack.read(4).unwrap(), 10);
    assert_eq!(bitpack.read(10).unwrap(), 1021);
    assert_eq!(bitpack.read(2).unwrap(), 3);
}
