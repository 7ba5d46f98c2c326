use flash_extract::block::{AppendedBlock, Block, InterlacedBlock, LayoutError};

fn buffer(len: usize) -> Vec<u8> {
    (0..len).map(|i| (i % 251) as u8).collect()
}

#[test]
fn interlaced_round_trip() {
    let buf = buffer((16 + 4) * 3 * 2);
    let blocks = InterlacedBlock::from_slice(&buf, 16, 4, 3).unwrap();
    assert_eq!(blocks.len(), 2);
    let mut out = Vec::new();
    for block in &blocks {
        assert_eq!(block.iter().len(), 3);
        for (page, oob) in block.iter() {
            assert_eq!(page.data.len(), 16);
            assert_eq!(oob.data.len(), 4);
            out.extend_from_slice(page.data);
            out.extend_from_slice(oob.data);
        }
    }
    assert_eq!(out, buf);
}

#[test]
fn appended_round_trip() {
    let buf = buffer((16 + 4) * 3 * 2);
    let blocks = AppendedBlock::from_slice(&buf, 16, 4, 3).unwrap();
    assert_eq!(blocks.len(), 2);
    let mut out = Vec::new();
    for block in &blocks {
        for (page, _) in block.iter() {
            out.extend_from_slice(page.data);
        }
        for (_, oob) in block.iter() {
            out.extend_from_slice(oob.data);
        }
    }
    assert_eq!(out, buf);
    let second = &blocks[1].iter()[1];
    assert_eq!(second.0.data, &buf[60 + 16..60 + 32]);
    assert_eq!(second.1.data, &buf[60 + 48 + 4..60 + 48 + 8]);
}

#[test]
fn length_mismatch_is_an_error() {
    let buf = buffer(41);
    assert_eq!(InterlacedBlock::from_slice(&buf, 16, 4, 2).err(), Some(LayoutError::LengthMismatch));
    assert_eq!(AppendedBlock::from_slice(&buf, 16, 4, 2).err(), Some(LayoutError::LengthMismatch));
}

#[test]
fn zero_block_size_is_an_error() {
    let buf = buffer(40);
    assert_eq!(InterlacedBlock::from_slice(&buf, 16, 4, 0).err(), Some(LayoutError::InvalidGeometry));
    assert_eq!(AppendedBlock::from_slice(&buf, 0, 0, 4).err(), Some(LayoutError::InvalidGeometry));
}

#[test]
fn overflowing_block_size_is_an_error() {
    let buf = buffer(40);
    assert_eq!(
        InterlacedBlock::from_slice(&buf, usize::MAX, 1, 1).err(),
        Some(LayoutError::InvalidGeometry)
    );
    assert_eq!(
        AppendedBlock::from_slice(&buf, usize::MAX / 2, 1, 4).err(),
        Some(LayoutError::InvalidGeometry)
    );
}

#[test]
fn empty_dump_has_no_blocks() {
    let buf: Vec<u8> = Vec::new();
    assert_eq!(InterlacedBlock::from_slice(&buf, 16, 4, 2).unwrap().len(), 0);
}

#[test]
fn all_ff_block_is_empty_under_both() {
    let buf = vec![0xffu8; (16 + 8) * 4];
    assert!(InterlacedBlock::from_slice(&buf, 16, 8, 4).unwrap()[0].empty_block());
    assert!(AppendedBlock::from_slice(&buf, 16, 8, 4).unwrap()[0].empty_block());
}

#[test]
fn all_fe_block_is_empty_only_interlaced() {
    let buf = vec![0xfeu8; (16 + 8) * 4];
    assert!(InterlacedBlock::from_slice(&buf, 16, 8, 4).unwrap()[0].empty_block());
    assert!(!AppendedBlock::from_slice(&buf, 16, 8, 4).unwrap()[0].empty_block());
}

#[test]
fn written_block_is_not_empty() {
    let mut buf = vec![0xffu8; (16 + 8) * 4];
    buf[50] = 0x00;
    assert!(!InterlacedBlock::from_slice(&buf, 16, 8, 4).unwrap()[0].empty_block());
    assert!(!AppendedBlock::from_slice(&buf, 16, 8, 4).unwrap()[0].empty_block());
    let mut buf = vec![0xffu8; (16 + 8) * 4];
    // An OOB byte of the appended layout: not inspected there.
    buf[16 * 4 + 3] = 0x00;
    assert!(AppendedBlock::from_slice(&buf, 16, 8, 4).unwrap()[0].empty_block());
}

#[test]
fn interlaced_bad_block_marker() {
    // Page 0's OOB byte 6 holds the good marker.
    let mut buf = vec![0u8; (16 + 8) * 4];
    buf[16 + 6] = 0xff;
    assert!(!InterlacedBlock::from_slice(&buf, 16, 8, 4).unwrap()[0].bad_block());
    // Only page 1 carries it: still good.
    let mut buf = vec![0u8; (16 + 8) * 4];
    buf[24 + 16 + 6] = 0xff;
    assert!(!InterlacedBlock::from_slice(&buf, 16, 8, 4).unwrap()[0].bad_block());
    // Only page 2 carries it: not inspected, so bad.
    let mut buf = vec![0u8; (16 + 8) * 4];
    buf[48 + 16 + 6] = 0xff;
    assert!(InterlacedBlock::from_slice(&buf, 16, 8, 4).unwrap()[0].bad_block());
}

#[test]
fn appended_bad_block_marker() {
    let mut buf = vec![0u8; (16 + 8) * 4];
    buf[64 + 6] = 0xff;
    assert!(!AppendedBlock::from_slice(&buf, 16, 8, 4).unwrap()[0].bad_block());
    // Only page 1 carries it: not inspected, so bad.
    let mut buf = vec![0u8; (16 + 8) * 4];
    buf[64 + 8 + 6] = 0xff;
    assert!(AppendedBlock::from_slice(&buf, 16, 8, 4).unwrap()[0].bad_block());
}
