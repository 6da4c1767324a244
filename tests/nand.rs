use rs_flash::flash_device::{FlashDevice, FlashError};
use rs_flash::nand_device::NandDevice;

type Result = std::result::Result<(), FlashError>;

#[test]
fn nand_read_fresh() -> Result {
    let dev = NandDevice::new(1024);
    let data = dev.read(0, 1)?;
    assert_eq!(data[0], 0xff);
    Ok(())
}

#[test]
fn nand_bad_reads() {
    let dev = NandDevice::new(1024);
    assert_eq!(dev.read(0, 0), Err(FlashError::InvalidArgument));
    assert_eq!(dev.read(1023, 2), Err(FlashError::OutOfBounds));
    assert_eq!(dev.read(usize::MAX, 1), Err(FlashError::OutOfBounds));
}

#[test]
fn nand_read_edges() -> Result {
    let dev = NandDevice::new(8);
    dev.read(0, 1)?;
    dev.read(7, 1)?;
    dev.read(0, 8)?;
    dev.read(7, 1)?;
    Ok(())
}

#[test]
fn nand_write() -> Result {
    let mut dev = NandDevice::new(1024);
    dev.write(0, &[0])?;
    assert_eq!(dev.read(0, 1)?, vec![0]);
    Ok(())
}

#[test]
fn nand_bad_writes() {
    let mut dev = NandDevice::new(8);
    assert_eq!(dev.write(7, &[0x01, 0x02, 0x03]), Err(FlashError::OutOfBounds));
}

#[test]
fn nand_write_edges() -> Result {
    let mut dev = NandDevice::new(8);
    dev.write(0, &[0xee])?;
    dev.write(7, &[0xee])?;
    dev.erase_device()?;
    dev.write(0, &[0xee; 8])?;
    dev.erase_device()?;
    dev.write(7, &[0xee; 1])
}

#[test]
fn nand_write_read() -> Result {
    let mut dev = NandDevice::new(1024);
    dev.write(0, &[0xff])?;
    let data = dev.read(0, 1)?;
    assert_eq!(data[0], 0xff);
    Ok(())
}

#[test]
fn nand_write_read_offset() -> Result {
    let mut dev = NandDevice::new(1024);
    dev.write(1, &[0xee])?;
    assert_eq!(dev.read(0, 2)?, &[0xff, 0xee]);
    Ok(())
}

#[test]
fn nand_read_block() -> Result {
    let dev = NandDevice::new(1024);
    let data = dev.read(1, 0xfe)?;
    assert_eq!(data.len(), 0xfe);
    assert_eq!(data[0], 0xff);
    assert_eq!(data[0xfd], 0xff);
    Ok(())
}

#[test]
fn nand_write_block_read_block() -> Result {
    let mut dev = NandDevice::new(1024);
    let org_data: Vec<u8> = (0..0xff).collect();
    dev.write(0x01, &org_data)?;
    let read_data = dev.read(1, 0xff)?;
    assert_eq!(read_data.len(), 0xff);
    assert_eq!(read_data[0], 0x00);
    assert_eq!(read_data[0xaa], 0xaa);
    assert_eq!(read_data[0xfe], 0xfe);

    dev.erase(0xaa, 1)?;
    dev.write(0xaa, &[0x55])?;
    assert_eq!(dev.read(0xaa, 1)?, &[0x55]);
    Ok(())
}

#[test]
fn nand_erase_offset() -> Result {
    let mut dev = NandDevice::new(1024);
    dev.write(0xaa, &[0x55])?;
    dev.erase(0xaa, 1)?;
    assert_eq!(dev.read(0xaa, 1)?, &[0xff]);
    Ok(())
}

#[test]
fn nand_erase_device() -> Result {
    let mut dev = NandDevice::new(1024);
    let pattern = vec![0x44; 1024];
    dev.write(0, pattern.as_slice())?;
    assert_eq!(dev.read(0xaa, 1)?, &[0x44]);
    assert_eq!(dev.read(0x02, 1)?, &[0x44]);
    dev.erase_device()?;
    assert_eq!(dev.read(0xaa, 1)?, &[0xff]);
    assert_eq!(dev.read(0x02, 1)?, &[0xff]);
    for b in dev.read(0x0, 1024)?.iter() {
        assert_eq!(*b, 0xff);
    }
    Ok(())
}

#[test]
fn nand_write_to_programmed_cell_fails_unchanged() -> Result {
    let mut dev = NandDevice::new(16);
    dev.write(4, &[0x12])?;
    assert_eq!(dev.write(2, &[0x01, 0x02, 0x03, 0x04]), Err(FlashError::WriteToNonErasedCell));
    assert_eq!(dev.read(0, 8)?, vec![0xff, 0xff, 0xff, 0xff, 0x12, 0xff, 0xff, 0xff]);
    Ok(())
}

#[test]
fn nand_erase_out_of_bounds() -> Result {
    let mut dev = NandDevice::new(16);
    dev.write(0, &[3; 16])?;
    assert_eq!(dev.erase(15, 2), Err(FlashError::OutOfBounds));
    assert_eq!(dev.read(0, 16)?, vec![3; 16]);
    dev.erase(4, 4)?;
    assert_eq!(dev.read(2, 8)?, vec![3, 3, 0xff, 0xff, 0xff, 0xff, 3, 3]);
    Ok(())
}

#[test]
fn nand_write_program_value() -> Result {
    let mut dev = NandDevice::new(4);
    dev.write(0, &[0x5a, 0x00, 0xff, 0x81])?;
    assert_eq!(dev.read(0, 4)?, vec![0x5a, 0x00, 0xff, 0x81]);
    Ok(())
}
