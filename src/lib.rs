// Emulated erase-before-write storage devices: a flat NAND-like device, a sparse device
// that stores only written runs of bytes, and the model both are verified against.

pub mod bytes;
pub mod device;
pub mod flash_device;
pub mod nand_device;
pub mod sparse_device;
pub mod spans;
