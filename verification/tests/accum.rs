use bitpack::{WordPacker, WordUnpacker};

#[test]
fn test_word_round_trip() {
    let mut packer = WordPacker::new();
    packer.write(10, 4).unwrap();
    packer.write(1021, 10).unwrap();
    packer.write(3, 2).unwrap();
    packer.flush();

    // 16 bits packed MSB-first into one word, padded with zeros:
    // 1010 1111111101 11 -> 0xaff70000, little-endian bytes.
    assert_eq!(packer.as_slice(), [0x00, 0x00, 0xf7, 0xaf]);

    let vec = packer.into_vec();
    let mut unpacker = WordUnpacker::new(&vec);
    assert_eq!(unpacker.read(4).unwrap(), 10);
    assert_eq!(unpacker.read(10).unwrap(), 1021);
    assert_eq!(unpacker.read(2).unwrap(), 3);
}

#[test]
fn test_word_split_across_flush() {
    // The second value straddles a word boundary: its high bits finish the
    // first word, its low bits start the next one.
    let mut packer = WordPacker::new();
    packer.write(0x7, 3).unwrap();
    packer.write(0xffff_ffff, 32).unwrap();
    packer.flush();
    assert_eq!(packer.as_slice().len(), 8);
    assert_eq!(&packer.as_slice()[..4], [0xff, 0xff, 0xff, 0xff]);
    assert_eq!(&packer.as_slice()[4..], [0x00, 0x00, 0x00, 0xe0]);

    let vec = packer.into_vec();
    let mut unpacker = WordUnpacker::new(&vec);
    assert_eq!(unpacker.read(3).unwrap(), 0x7);
    assert_eq!(unpacker.read(32).unwrap(), 0xffff_ffff);
    assert_eq!(unpacker.sum_bits(), 35);
}

#[test]
fn test_word_exact_boundary() {
    // A full word commits itself with no explicit flush.
    let mut packer = WordPacker::new();
    packer.write(0xdead_beef, 32).unwrap();
    assert_eq!(packer.as_slice(), [0xef, 0xbe, 0xad, 0xde]);
    assert_eq!(packer.sum_bits(), 32);

    let vec = packer.into_vec();
    let mut unpacker = WordUnpacker::new(&vec);
    assert_eq!(unpacker.read(32).unwrap(), 0xdead_beef);
    // The buffer's whole words are exhausted now.
    assert_eq!(unpacker.read(1), Err(1));
    assert_eq!(unpacker.sum_bits(), 32);
}

#[test]
fn test_word_flush_idempotent() {
    // Flushing with an empty pending word is a no-op.
    let mut packer = WordPacker::new();
    packer.flush();
    assert_eq!(packer.as_slice().len(), 0);
    assert_eq!(packer.sum_bits(), 0);

    packer.write(5, 3).unwrap();
    packer.flush();
    assert_eq!(packer.as_slice(), [0x00, 0x00, 0x00, 0xa0]);
    packer.flush();
    packer.flush();
    assert_eq!(packer.as_slice(), [0x00, 0x00, 0x00, 0xa0]);
    assert_eq!(packer.sum_bits(), 32);
}

#[test]
fn test_word_masking() {
    // Bits of the value above the requested width are discarded.
    let mut packer = WordPacker::new();
    packer.write(0xffff_ffff, 4).unwrap();
    packer.write(0, 28).unwrap();
    assert_eq!(packer.as_slice(), [0x00, 0x00, 0x00, 0xf0]);

    let vec = packer.into_vec();
    let mut unpacker = WordUnpacker::new(&vec);
    assert_eq!(unpacker.read(4).unwrap(), 0xf);
    assert_eq!(unpacker.read(28).unwrap(), 0);
}

#[test]
fn test_word_width_too_large() {
    let mut packer = WordPacker::new();
    assert_eq!(packer.write(1, 33), Err(33));
    assert_eq!(packer.as_slice().len(), 0);
    assert_eq!(packer.sum_bits(), 0);

    let vec = packer.into_vec();
    let mut unpacker = WordUnpacker::new(&vec);
    assert_eq!(unpacker.read(33), Err(33));
    assert_eq!(unpacker.read(1), Err(1));
}

#[test]
fn test_word_lost_tail_without_flush() {
    // Omitting the final flush loses the pending bits: only whole words are
    // ever committed.
    let mut packer = WordPacker::new();
    packer.write(0x3ff, 10).unwrap();
    assert_eq!(packer.as_slice().len(), 0);
    assert_eq!(packer.sum_bits(), 10);
}
