use bitpack::BitPack;

#[test]
fn test_smallbit() {
    let mut buff = [0; 1];

    {
        let mut bitpack = BitPack::<&mut [u8]>::new(&mut buff);
        bitpack.write(1, 1).unwrap();
        bitpack.write(0, 1).unwrap();
        bitpack.write(0, 1).unwrap();
        bitpack.write(1, 1).unwrap();
    }

    {
        let mut bitpack = BitPack::<&[u8]>::new(&buff);
        assert_eq!(bitpack.read(1).unwrap(), 1);
        assert_eq!(bitpack.read(1).unwrap(), 0);
        assert_eq!(bitpack.read(1).unwrap(), 0);
        assert_eq!(bitpack.read(1).unwrap(), 1);
    }
}

#[test]
fn lib_test_bigbit() {
    let mut buff = [0; 8];

    {
        let mut bitpack = BitPack::<&mut [u8]>::new(&mut buff);
        bitpack.write(255, 8).unwrap();
        bitpack.write(65535, 16).unwrap();
        bitpack.write(65535, 16).unwrap();
        bitpack.write(255, 8).unwrap();
        bitpack.write(65535, 16).unwrap();
    }

    {
        let mut bitpack = BitPack::<&[u8]>::new(&buff);
        assert_eq!(bitpack.read(8).unwrap(), 255);
        assert_eq!(bitpack.read(16).unwrap(), 65535);
        assert_eq!(bitpack.read(16).unwrap(), 65535);
        assert_eq!(bitpack.read(8).unwrap(), 255);
        assert_eq!(bitpack.read(16).unwrap(), 65535);
    }
}

#[test]
fn test_moresmallbit() {
    let input = [
        1, 0, 0, 1, 0, 0, 1, 0, 0, 1, 0, 1, 1, 1, 1, 0, 0, 1, 1, 0, 1, 1, 1, 0, 0, 0, 1, 1, 0, 1,
        0, 0, 0, 1, 0, 0, 1, 0, 0, 1, 0, 0, 0, 1, 0, 1, 1, 0, 0, 1, 1, 1, 0, 0, 0, 0, 0, 0, 0, 1,
    ];
    let mut buff = [0; 8];

    {
        let mut bitpack = BitPack::<&mut [u8]>::new(&mut buff);
        for &b in &input[..] {
            bitpack.write(b, 1).unwrap();
        }
    }

    {
        let mut bitpack = BitPack::<&[u8]>::new(&buff);
        for &b in &input[..] {
            assert_eq!(bitpack.read(1).unwrap(), b);
        }
    }
}

#[test]
fn test_doc_scenario() {
    let mut buff = [0; 2];

    {
        let mut bitpack = BitPack::<&mut [u8]>::new(&mut buff);
        bitpack.write(10, 4).unwrap();
        bitpack.write(1021, 10).unwrap();
        bitpack.write(3, 2).unwrap();
    }

    assert_eq!(buff, [218, 255]);

    let mut bitpack = BitPack::<&[u8]>::new(&buff);
    assert_eq!(bitpack.read(4).unwrap(), 10);
    assert_eq!(bitpack.read(10).unwrap(), 1021);
    assert_eq!(bitpack.read(2).unwrap(), 3);
}

#[test]
fn test_masking() {
    // Bits of the value above the requested width are discarded on write.
    let mut buff = [0; 4];

    {
        let mut bitpack = BitPack::<&mut [u8]>::new(&mut buff);
        bitpack.write(0xffff_ffff, 5).unwrap();
        bitpack.write(0xabcd_1234, 12).unwrap();
    }

    let mut bitpack = BitPack::<&[u8]>::new(&buff);
    assert_eq!(bitpack.read(5).unwrap(), 0x1f);
    assert_eq!(bitpack.read(12).unwrap(), 0x234);
}

#[test]
fn test_boundary() {
    // A request for exactly the remaining bits succeeds; one more bit fails
    // with the offending width and changes nothing.
    let mut buff = [0; 2];
    let mut bitpack = BitPack::<&mut [u8]>::new(&mut buff);
    bitpack.write(0x3ff, 10).unwrap();
    assert_eq!(bitpack.write(0x7f, 7), Err(7));
    assert_eq!(bitpack.sum_bits(), 10);
    bitpack.write(0x3f, 6).unwrap();
    assert_eq!(bitpack.sum_bits(), 16);
    assert_eq!(bitpack.write(1, 1), Err(1));

    let mut reader = BitPack::<&[u8]>::new(&buff);
    assert_eq!(reader.read(10).unwrap(), 0x3ff);
    assert_eq!(reader.read(7), Err(7));
    assert_eq!(reader.sum_bits(), 10);
    assert_eq!(reader.read(6).unwrap(), 0x3f);
    assert_eq!(reader.read(1), Err(1));
}

#[test]
fn test_width_too_large() {
    let mut buff = [0; 16];
    let mut bitpack = BitPack::<&mut [u8]>::new(&mut buff);
    assert_eq!(bitpack.write(1, 33), Err(33));
    assert_eq!(bitpack.sum_bits(), 0);

    let copy = [0u8; 16];
    let mut reader = BitPack::<&[u8]>::new(&copy);
    assert_eq!(reader.read(33), Err(33));
    assert_eq!(reader.sum_bits(), 0);
}

#[test]
fn test_full_width() {
    let mut buff = [0; 4];

    {
        let mut bitpack = BitPack::<&mut [u8]>::new(&mut buff);
        bitpack.write(0xdead_beef, 32).unwrap();
    }

    let mut reader = BitPack::<&[u8]>::new(&buff);
    assert_eq!(reader.read(32).unwrap(), 0xdead_beef);
}

#[test]
fn test_with_cursor_and_bits() {
    let buff = [0xda, 0xff];
    let mut reader = BitPack::<&[u8]>::new(&buff);
    reader.with_cursor(1).with_bits(2);
    assert_eq!(reader.sum_bits(), 10);
    assert_eq!(reader.read(6).unwrap(), 0x3f);
    assert_eq!(reader.as_slice(), &buff);
}
