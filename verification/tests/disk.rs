use blockfs::error::FSError;
use blockfs::virtual_file_sys::block::{BLOCK_SIZE, NUM_BLOCKS};
use blockfs::virtual_file_sys::disk::Disk;

#[test]
fn disk_test() -> Result<(), FSError> {
    let _disk = Disk::mount(Vec::new())?;
    Ok(())
}

#[test]
fn disk_reads_what_was_written() {
    let mut disk = Disk::mount(Vec::new()).unwrap();
    let block: Vec<u8> = (0..BLOCK_SIZE).map(|i| (i % 256) as u8).collect();
    assert_eq!(disk.write_block(NUM_BLOCKS - 1, &block), Ok(()));
    assert_eq!(disk.write_block(17, &block), Ok(()));
    let mut out = Vec::new();
    assert_eq!(disk.read_block(17, &mut out), Ok(()));
    assert_eq!(out, block);
    assert_eq!(disk.read_block(16, &mut out), Ok(()));
    assert_eq!(out, vec![0u8; BLOCK_SIZE]);
    assert_eq!(disk.read_block(18, &mut out), Ok(()));
    assert_eq!(out, vec![0u8; BLOCK_SIZE]);
    let image = disk.unmount();
    assert_eq!(image.len(), NUM_BLOCKS * BLOCK_SIZE);
    assert_eq!(&image[17 * BLOCK_SIZE..18 * BLOCK_SIZE], &block[..]);
    assert_eq!(&image[(NUM_BLOCKS - 1) * BLOCK_SIZE..], &block[..]);
    let disk = Disk::mount(image.clone()).unwrap();
    assert_eq!(disk.unmount(), image);
}

#[test]
fn disk_refuses_what_is_out_of_range() {
    let mut disk = Disk::mount(Vec::new()).unwrap();
    let mut out = vec![1u8];
    assert_eq!(disk.read_block(NUM_BLOCKS, &mut out), Err(FSError::BlockError));
    assert_eq!(out, vec![1u8]);
    assert_eq!(disk.write_block(NUM_BLOCKS, &vec![0u8; BLOCK_SIZE]), Err(FSError::BlockError));
    assert_eq!(disk.write_block(0, &vec![0u8; BLOCK_SIZE + 1]), Err(FSError::BlockError));
    assert!(matches!(Disk::mount(vec![0u8; BLOCK_SIZE]), Err(FSError::IOError)));
}
