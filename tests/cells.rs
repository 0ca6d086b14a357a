use hextuner::codec::{bytes_to_u32, read_cell, write_cell, CellError};

#[test]
fn codec_byte_order() {
    let mut image = vec![0u8; 8];
    write_cell(&mut image, 2, 2, 0x1234).unwrap();
    assert_eq!(image[2], 0x34);
    assert_eq!(image[3], 0x12);
    assert_eq!(read_cell(&image, 2, 2).unwrap(), 0x1234);
    assert_eq!(image[0], 0);
    assert_eq!(image[4], 0);
}

#[test]
fn four_byte_cells_round_trip() {
    let mut image = vec![0u8; 4];
    write_cell(&mut image, 0, 4, 0xdead_beef).unwrap();
    assert_eq!(image, vec![0xef, 0xbe, 0xad, 0xde]);
    assert_eq!(read_cell(&image, 0, 4).unwrap(), 0xdead_beef);
}

#[test]
fn narrow_cell_keeps_low_bytes() {
    let mut image = vec![0u8; 3];
    write_cell(&mut image, 1, 1, 0x1ff).unwrap();
    assert_eq!(image, vec![0, 0xff, 0]);
    assert_eq!(read_cell(&image, 1, 1).unwrap(), 0xff);
}

#[test]
fn bytes_read_least_significant_first() {
    assert_eq!(bytes_to_u32(&[0x01, 0x02, 0x03]), 0x030201);
    assert_eq!(bytes_to_u32(&[]), 0);
}

#[test]
fn cells_wider_than_four_bytes_fail() {
    let mut image = vec![0u8; 16];
    assert_eq!(read_cell(&image, 0, 5).unwrap_err(), CellError::TooWide { size: 5 });
    assert_eq!(write_cell(&mut image, 0, 8, 1).unwrap_err(), CellError::TooWide { size: 8 });
}

#[test]
fn cells_outside_the_image_fail() {
    let mut image = vec![0u8; 4];
    assert_eq!(
        read_cell(&image, 3, 2).unwrap_err(),
        CellError::OutOfBounds { address: 3, size: 2 }
    );
    assert_eq!(
        write_cell(&mut image, 10, 1, 1).unwrap_err(),
        CellError::OutOfBounds { address: 10, size: 1 }
    );
    assert_eq!(image, vec![0u8; 4]);
}
