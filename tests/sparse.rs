use rs_flash::flash_device::{FlashDevice, FlashError};
use rs_flash::sparse_device::SparseDevice;

type Result = std::result::Result<(), FlashError>;

#[test]
fn write_overlapping_blocks() -> Result {
    let mut dev = SparseDevice::new(1024);
    let testdata: Vec<u8> = vec![0x01, 0x02, 0x03];
    dev.write(0, &testdata)?;

    assert_eq!(dev.read(0, 3)?, testdata);
    dev.write(1, &testdata)?;

    let expected_data: Vec<u8> = vec![0x01, 0x01, 0x02, 0x03];
    assert_eq!(dev.read(0, 4)?, expected_data);
    assert_eq!(dev.used_chunks(), 1);
    Ok(())
}

#[test]
fn write_overlap_from_left() -> Result {
    {
        let mut dev = SparseDevice::new(1024);
        let data1: Vec<u8> = vec![0x01, 0x02, 0x03];
        let data2: Vec<u8> = vec![0x04, 0x05, 0x06, 0x07];
        let result: Vec<u8> = vec![0x04, 0x05, 0x06, 0x07, 0x02];
        dev.write(3, &data1)?;
        dev.write(0, &data2)?;
        assert_eq!(dev.read(0, 5)?, result);
        assert_eq!(dev.used_chunks(), 1);
    }
    {
        let mut dev = SparseDevice::new(1024);
        let data1: Vec<u8> = vec![0x01, 0x02, 0x03];
        let data2: Vec<u8> = vec![0x04, 0x05, 0x06];
        let result: Vec<u8> = vec![0x04, 0x05, 0x06, 0x02];
        dev.write(2, &data1)?;
        dev.write(0, &data2)?;
        assert_eq!(dev.read(0, 4)?, result);
        assert_eq!(dev.used_chunks(), 1);
    }

    Ok(())
}

#[test]
fn write_overlap_from_right() -> Result {
    let mut dev = SparseDevice::new(1024);

    let data1: Vec<u8> = vec![0x01, 0x02, 0x03];
    let data2: Vec<u8> = vec![0x04, 0x05, 0x06];
    let result: Vec<u8> = vec![0x01, 0x02, 0x04, 0x05, 0x06];
    dev.write(0, &data1)?;
    dev.write(2, &data2)?;
    assert_eq!(dev.read(0, 5)?, result);
    assert_eq!(dev.used_chunks(), 1);
    Ok(())
}

#[test]
fn write_overlap_complete() -> Result {
    let mut dev = SparseDevice::new(1024);

    let data1: Vec<u8> = vec![0x01, 0x02, 0x03];
    let data2: Vec<u8> = vec![0x04, 0x05, 0x06];
    let result: Vec<u8> = vec![0x04, 0x05, 0x06];
    dev.write(0, &data1)?;
    dev.write(0, &data2)?;
    assert_eq!(dev.read(0, 3)?, result);
    assert_eq!(dev.used_chunks(), 1);
    Ok(())
}

#[test]
fn read_overlap() -> Result {
    let mut dev = SparseDevice::new(1024);

    let write_data: Vec<u8> = vec![0x01, 0x02, 0x03];
    dev.write(20, &write_data)?;

    let expected_data: Vec<u8> =
        vec![0xff, 0xff, 0xff, 0xff, 0xff, 0x01, 0x02, 0x03, 0xff, 0xff];
    assert_eq!(dev.read(15, 10)?, expected_data);
    assert_eq!(dev.used_chunks(), 1);
    Ok(())
}

#[test]
fn read_overlap_multiple_chunks() -> Result {
    let mut dev = SparseDevice::new(1024);

    let write_data: Vec<u8> = vec![0x01, 0x02, 0x03];
    dev.write(3, &write_data)?;
    assert_eq!(dev.used_chunks(), 1);
    dev.write(7, &write_data)?;
    assert_eq!(dev.used_chunks(), 2);

    assert_eq!(
        dev.read(0, 10)?,
        &[0xff, 0xff, 0xff, 0x01, 0x02, 0x03, 0xff, 0x01, 0x02, 0x03]
    );

    Ok(())
}

#[test]
fn sparse_read_fresh() -> Result {
    let dev = SparseDevice::new(1024);
    assert_eq!(dev.read(0, 1)?, vec![0xff]);
    Ok(())
}

#[test]
fn sparse_bad_reads() {
    let dev = SparseDevice::new(1024);
    assert_eq!(dev.read(0, 0), Err(FlashError::InvalidArgument));
    assert_eq!(dev.read(1023, 2), Err(FlashError::OutOfBounds));
    assert_eq!(dev.read(usize::MAX, 2), Err(FlashError::OutOfBounds));
    assert_eq!(dev.read(2000, 0), Err(FlashError::OutOfBounds));
}

#[test]
fn sparse_read_edges() -> Result {
    let dev = SparseDevice::new(8);
    dev.read(0, 1)?;
    dev.read(7, 1)?;
    dev.read(0, 8)?;
    assert_eq!(dev.read(8, 1), Err(FlashError::OutOfBounds));
    Ok(())
}

#[test]
fn sparse_bad_writes() {
    let mut dev = SparseDevice::new(8);
    assert_eq!(dev.write(7, &[0x01, 0x02, 0x03]), Err(FlashError::OutOfBounds));
    assert_eq!(dev.used_chunks(), 0);
    assert_eq!(dev.read(0, 8), Ok(vec![0xff; 8]));
}

#[test]
fn sparse_write_edges() -> Result {
    let mut dev = SparseDevice::new(8);
    dev.write(0, &[0xee])?;
    dev.write(7, &[0xee])?;
    dev.erase_device()?;
    dev.write(0, &[0xee; 8])?;
    dev.erase_device()?;
    dev.write(7, &[0xee; 1])?;
    assert_eq!(dev.read(0, 8)?, vec![0xff, 0xff, 0xff, 0xff, 0xff, 0xff, 0xff, 0xee]);
    Ok(())
}

#[test]
fn sparse_write_read_offset() -> Result {
    let mut dev = SparseDevice::new(1024);
    dev.write(1, &[0xee])?;
    assert_eq!(dev.read(0, 2)?, &[0xff, 0xee]);
    Ok(())
}

#[test]
fn sparse_write_block_read_block() -> Result {
    let mut dev = SparseDevice::new(1024);
    let org_data: Vec<u8> = (0..0xff).collect();
    dev.write(0x01, &org_data)?;
    let read_data = dev.read(1, 0xff)?;
    assert_eq!(read_data.len(), 0xff);
    assert_eq!(read_data[0], 0x00);
    assert_eq!(read_data[0xaa], 0xaa);
    assert_eq!(read_data[0xfe], 0xfe);

    dev.erase(0xaa, 1)?;
    dev.write(0xaa, &[0x55])?;
    assert_eq!(dev.read(0xaa, 1)?, &[0x55]);
    Ok(())
}

#[test]
fn sparse_erase_offset() -> Result {
    let mut dev = SparseDevice::new(1024);
    dev.write(0xaa, &[0x55])?;
    dev.erase(0xaa, 1)?;
    assert_eq!(dev.read(0xaa, 1)?, &[0xff]);
    assert_eq!(dev.used_chunks(), 0);
    Ok(())
}

#[test]
fn sparse_erase_device() -> Result {
    let mut dev = SparseDevice::new(1024);
    dev.write(0, &vec![0x44; 1024])?;
    assert_eq!(dev.read(0xaa, 1)?, &[0x44]);
    dev.erase_device()?;
    assert_eq!(dev.read(0xaa, 1)?, &[0xff]);
    assert_eq!(dev.read(0, 1024)?, vec![0xff; 1024]);
    assert_eq!(dev.used_chunks(), 0);
    Ok(())
}

#[test]
fn sparse_erase_splits_straddling_chunk() -> Result {
    let mut dev = SparseDevice::new(64);
    dev.write(10, &[1, 2, 3, 4, 5, 6])?;
    dev.erase(12, 2)?;
    assert_eq!(dev.read(9, 8)?, vec![0xff, 1, 2, 0xff, 0xff, 5, 6, 0xff]);
    assert_eq!(dev.used_chunks(), 2);
    Ok(())
}

#[test]
fn sparse_erase_trims_chunk_starting_before_window() -> Result {
    let mut dev = SparseDevice::new(64);
    dev.write(10, &[1, 2, 3, 4])?;
    dev.write(20, &[7, 8])?;
    dev.erase(12, 9)?;
    assert_eq!(dev.read(10, 12)?, vec![1, 2, 0xff, 0xff, 0xff, 0xff, 0xff, 0xff, 0xff, 0xff, 0xff, 8]);
    assert_eq!(dev.used_chunks(), 2);
    Ok(())
}

#[test]
fn sparse_erase_out_of_bounds() -> Result {
    let mut dev = SparseDevice::new(16);
    dev.write(0, &[9; 16])?;
    assert_eq!(dev.erase(10, 7), Err(FlashError::OutOfBounds));
    assert_eq!(dev.read(0, 16)?, vec![9; 16]);
    Ok(())
}

#[test]
fn sparse_write_spanning_three_chunks() -> Result {
    let mut dev = SparseDevice::new(64);
    dev.write(0, &[1, 1, 1])?;
    dev.write(5, &[2, 2])?;
    dev.write(9, &[3, 3, 3])?;
    assert_eq!(dev.used_chunks(), 3);
    dev.write(2, &[7, 7, 7, 7, 7, 7, 7, 7])?;
    assert_eq!(dev.used_chunks(), 1);
    assert_eq!(dev.read(0, 13)?, vec![1, 1, 7, 7, 7, 7, 7, 7, 7, 7, 3, 3, 0xff]);
    Ok(())
}

#[test]
fn sparse_adjacent_writes_stay_apart() -> Result {
    let mut dev = SparseDevice::new(64);
    dev.write(0, &[1, 2, 3])?;
    dev.write(3, &[4])?;
    assert_eq!(dev.used_chunks(), 2);
    assert_eq!(dev.read(0, 5)?, vec![1, 2, 3, 4, 0xff]);
    Ok(())
}

#[test]
fn sparse_disjoint_writes_count_chunks() -> Result {
    let mut dev = SparseDevice::new(100);
    dev.write(50, &[5, 5])?;
    dev.write(10, &[1])?;
    dev.write(80, &[8, 8, 8])?;
    dev.write(30, &[3, 3])?;
    assert_eq!(dev.used_chunks(), 4);
    Ok(())
}

#[test]
fn sparse_exact_overlay_keeps_count() -> Result {
    let mut dev = SparseDevice::new(100);
    dev.write(10, &[1, 2, 3])?;
    dev.write(20, &[4, 5])?;
    dev.write(20, &[6, 7])?;
    assert_eq!(dev.used_chunks(), 2);
    assert_eq!(dev.read(20, 2)?, vec![6, 7]);
    Ok(())
}

#[test]
fn sparse_covering_write_replaces_chunk() -> Result {
    let mut dev = SparseDevice::new(100);
    dev.write(10, &[1, 2])?;
    dev.write(8, &[9, 9, 9, 9, 9, 9])?;
    assert_eq!(dev.used_chunks(), 1);
    assert_eq!(dev.read(7, 8)?, vec![0xff, 9, 9, 9, 9, 9, 9, 0xff]);
    Ok(())
}

#[test]
fn sparse_empty_write_is_noop() -> Result {
    let mut dev = SparseDevice::new(16);
    dev.write(4, &[])?;
    assert_eq!(dev.used_chunks(), 0);
    assert_eq!(dev.write(17, &[]), Err(FlashError::OutOfBounds));
    Ok(())
}

#[test]
fn sparse_rewrite_programmed_bytes() -> Result {
    let mut dev = SparseDevice::new(16);
    dev.write(0, &[0x00; 4])?;
    dev.write(0, &[0xab; 4])?;
    assert_eq!(dev.read(0, 4)?, vec![0xab; 4]);
    Ok(())
}
