use blockfs::error::FSError;
use blockfs::virtual_file_sys::block::{
    DataBlock, BLOCK_SIZE, MAX_DATA_BLOCKS, MAX_DIR_ENTRIES, MAX_FILE_SIZE, MAX_FNAME_SIZE,
    NUM_BLOCKS,
};
use blockfs::virtual_file_sys::file_sys::{BasicFileSys, FileSys, WrappedFileSys};
use blockfs::virtual_file_sys::inode::{DirEntry, DirInode, FileInode, HOME_DIR_ID};

fn name(text: &str) -> [u8; MAX_FNAME_SIZE] {
    let mut name = [0u8; MAX_FNAME_SIZE];
    name[..text.len()].copy_from_slice(text.as_bytes());
    name
}

fn fresh() -> FileSys {
    FileSys::mount(Vec::new()).unwrap()
}

fn inspect(fs: FileSys) -> WrappedFileSys {
    WrappedFileSys::new(fs.unmount()).unwrap()
}

fn bitmap(wrapped: &WrappedFileSys) -> Vec<u8> {
    let mut block = Vec::new();
    wrapped.file_sys_ref().read_block(0, &mut block).unwrap();
    block
}

fn allocated(wrapped: &WrappedFileSys) -> Vec<usize> {
    let bitmap = bitmap(wrapped);
    (0..NUM_BLOCKS).filter(|n| bitmap[n / 8] & (1 << (n % 8)) != 0).collect()
}

#[test]
fn file_sys_test() -> Result<(), FSError> {
    Ok(())
}

#[test]
fn geometry() {
    assert_eq!(BLOCK_SIZE, 1024);
    assert_eq!(NUM_BLOCKS, 8192);
    assert_eq!(MAX_FNAME_SIZE, 9);
    assert_eq!(MAX_DIR_ENTRIES, 31);
    assert_eq!(MAX_DATA_BLOCKS, 254);
    assert_eq!(MAX_FILE_SIZE, 254 * 1024);
    assert_eq!(HOME_DIR_ID, 1);
}

#[test]
fn mount_formats_a_new_image() {
    let mut fs = BasicFileSys::mount(Vec::new()).unwrap();
    let mut block = Vec::new();
    fs.read_block(0, &mut block).unwrap();
    assert_eq!(block.len(), BLOCK_SIZE);
    assert_eq!(block[0], 3);
    assert!(block[1..].iter().all(|b| *b == 0));
    fs.read_block(2, &mut block).unwrap();
    assert!(block.iter().all(|b| *b == 0));
    assert_eq!(fs.get_free_block(), Some(2));
    assert_eq!(fs.get_free_block(), Some(3));
    fs.reclaim_block(2).unwrap();
    assert_eq!(fs.get_free_block(), Some(2));
    assert_eq!(fs.unmount().len(), NUM_BLOCKS * BLOCK_SIZE);
}

#[test]
fn mount_refuses_a_truncated_image() {
    assert!(matches!(BasicFileSys::mount(vec![0u8; 100]), Err(FSError::IOError)));
    assert!(matches!(FileSys::mount(vec![0u8; BLOCK_SIZE]), Err(FSError::IOError)));
}

#[test]
fn mount_formats_an_image_without_a_bitmap() {
    let fs = BasicFileSys::mount(vec![0u8; NUM_BLOCKS * BLOCK_SIZE]).unwrap();
    let mut block = Vec::new();
    fs.read_block(0, &mut block).unwrap();
    assert_eq!(block[0], 3);
}

#[test]
fn mount_keeps_an_image_that_holds_a_file_system() {
    let mut fs = fresh();
    fs.create(name("kept")).unwrap();
    fs.append(name("kept"), b"bytes").unwrap();
    let image = fs.unmount();
    let fs = FileSys::mount(image.clone()).unwrap();
    assert_eq!(fs.ls().unwrap().as_bytes(), &name("kept")[..]);
    assert_eq!(fs.cat(name("kept")).unwrap(), b"bytes".to_vec());
    assert_eq!(fs.unmount(), image);
}

#[test]
fn block_numbers_out_of_range_are_refused() {
    let mut fs = BasicFileSys::mount(Vec::new()).unwrap();
    let mut block = vec![7u8; 3];
    assert_eq!(fs.read_block(NUM_BLOCKS, &mut block), Err(FSError::BlockError));
    assert_eq!(block, vec![7u8; 3]);
    assert_eq!(fs.write_block(NUM_BLOCKS, &vec![0u8; BLOCK_SIZE]), Err(FSError::BlockError));
    assert_eq!(fs.write_block(5, &vec![0u8; BLOCK_SIZE - 1]), Err(FSError::BlockError));
    assert_eq!(fs.reclaim_block(NUM_BLOCKS), Err(FSError::BlockError));
    assert_eq!(fs.write_block(5, &vec![9u8; BLOCK_SIZE]), Ok(()));
    assert_eq!(fs.read_block(5, &mut block), Ok(()));
    assert_eq!(block, vec![9u8; BLOCK_SIZE]);
}

#[test]
fn reclaiming_a_free_block_changes_nothing() {
    let mut fs = BasicFileSys::mount(Vec::new()).unwrap();
    fs.reclaim_block(100).unwrap();
    let mut block = Vec::new();
    fs.read_block(0, &mut block).unwrap();
    assert_eq!(block[0], 3);
    assert!(block[1..].iter().all(|b| *b == 0));
}

#[test]
fn allocation_is_lowest_first_until_the_disk_is_full() {
    let mut fs = BasicFileSys::mount(Vec::new()).unwrap();
    for expected in 2..NUM_BLOCKS {
        assert_eq!(fs.get_free_block(), Some(expected));
    }
    assert_eq!(fs.get_free_block(), None);
    fs.reclaim_block(4711).unwrap();
    assert_eq!(fs.get_free_block(), Some(4711));
    assert_eq!(fs.get_free_block(), None);
}

#[test]
fn data_block_write_pads_with_zeros() {
    let mut wrapped = WrappedFileSys::new(Vec::new()).unwrap();
    let mut block = DataBlock::new(&mut wrapped).unwrap();
    assert_eq!(block.get_id(), 2);
    assert_eq!(block.get_data(), &vec![0u8; BLOCK_SIZE]);
    block.write_and_set_raw_block(&mut wrapped, vec![1, 2, 3]).unwrap();
    let mut expected = vec![0u8; BLOCK_SIZE];
    expected[..3].copy_from_slice(&[1, 2, 3]);
    assert_eq!(block.get_raw(), expected);
    assert_eq!(DataBlock::retrieve(&wrapped, 2).unwrap().get_data(), &expected);
    assert_eq!(
        block.write_and_set_raw_block(&mut wrapped, vec![0u8; BLOCK_SIZE + 1]),
        Err(FSError::BlockError)
    );
    assert_eq!(block.get_raw(), expected);
    block.destroy(&mut wrapped);
    assert_eq!(allocated(&wrapped), vec![0, 1]);
    assert!(matches!(DataBlock::retrieve(&wrapped, NUM_BLOCKS), Err(FSError::BlockError)));
}

#[test]
fn create_then_ls() {
    let mut fs = fresh();
    fs.create(*b"file0001\0").unwrap();
    assert_eq!(fs.ls().unwrap(), "file0001\0");
}

#[test]
fn ls_lists_directories_first() {
    let mut fs = fresh();
    fs.mkdir(*b"dirA\0\0\0\0\0").unwrap();
    fs.mkdir(*b"dirB\0\0\0\0\0").unwrap();
    fs.create(*b"f\0\0\0\0\0\0\0\0").unwrap();
    assert_eq!(fs.ls().unwrap(), "dirA\0\0\0\0\0/ dirB\0\0\0\0\0/ f\0\0\0\0\0\0\0\0");
}

#[test]
fn ls_keeps_table_order_within_each_kind() {
    let mut fs = fresh();
    fs.create(name("f1")).unwrap();
    fs.mkdir(name("d1")).unwrap();
    fs.create(name("f2")).unwrap();
    fs.mkdir(name("d2")).unwrap();
    let expected = [
        &name("d1")[..],
        b"/ ",
        &name("d2")[..],
        b"/ ",
        &name("f1")[..],
        b" ",
        &name("f2")[..],
    ]
    .concat();
    assert_eq!(fs.ls().unwrap().into_bytes(), expected);
}

#[test]
fn ls_of_an_empty_directory_is_empty() {
    assert_eq!(fresh().ls().unwrap(), "");
}

#[test]
fn ls_refuses_names_that_are_no_text() {
    let mut fs = fresh();
    fs.create([0xFF, 0, 0, 0, 0, 0, 0, 0, 0]).unwrap();
    assert_eq!(fs.ls(), Err(FSError::FileSysError));
}

#[test]
fn append_then_cat() {
    let mut fs = fresh();
    fs.create(name("f")).unwrap();
    fs.append(name("f"), b"hello\nworld").unwrap();
    assert_eq!(fs.cat(name("f")).unwrap(), b"hello\nworld".to_vec());
    let wrapped = inspect(fs);
    let home = DirInode::retrieve(&wrapped, 1).unwrap();
    let entries = home.get_file_inode_entries();
    assert_eq!(entries.len(), 1);
    let file = FileInode::retrieve(&wrapped, entries[0].get_id()).unwrap();
    assert_eq!(file.get_size(), 11);
    assert_eq!(file.internal_flag_size(), 11);
    assert_eq!(file.get_blocks().len(), 1);
    assert_eq!(allocated(&wrapped), vec![0, 1, 2, 3]);
}

#[test]
fn append_one_byte_more_than_a_block() {
    let mut fs = fresh();
    fs.create(name("f")).unwrap();
    let data: Vec<u8> = (0..BLOCK_SIZE + 1).map(|i| (i % 251) as u8).collect();
    fs.append(name("f"), &data).unwrap();
    assert_eq!(fs.cat(name("f")).unwrap(), data);
    let wrapped = inspect(fs);
    let file = FileInode::retrieve(&wrapped, 2).unwrap();
    assert_eq!(file.get_size(), BLOCK_SIZE + 1);
    assert_eq!(file.get_blocks().len(), 2);
    assert_eq!(file.get_blocks()[0].get_id(), 3);
    assert_eq!(file.get_blocks()[1].get_id(), 4);
    assert_eq!(file.get_blocks()[1].get_data()[0], data[BLOCK_SIZE]);
    assert!(file.get_blocks()[1].get_data()[1..].iter().all(|b| *b == 0));
    assert_eq!(allocated(&wrapped), vec![0, 1, 2, 3, 4]);
}

#[test]
fn appends_add_up() {
    let mut fs = fresh();
    fs.create(name("f")).unwrap();
    let a: Vec<u8> = (0..1500).map(|i| (i % 7) as u8 + 1).collect();
    let b: Vec<u8> = (0..3000).map(|i| (i % 11) as u8 + 1).collect();
    fs.append(name("f"), &a).unwrap();
    fs.append(name("f"), &b).unwrap();
    assert_eq!(fs.cat(name("f")).unwrap(), [a, b].concat());
    let wrapped = inspect(fs);
    let file = FileInode::retrieve(&wrapped, 2).unwrap();
    assert_eq!(file.get_size(), 4500);
    assert_eq!(file.get_blocks().len(), 5);
    assert_eq!(file.internal_flag_size(), 4500 % BLOCK_SIZE);
}

#[test]
fn append_fills_the_last_block_first() {
    let mut fs = fresh();
    fs.create(name("f")).unwrap();
    fs.append(name("f"), &[1u8; 1000]).unwrap();
    fs.append(name("f"), &[2u8; 24]).unwrap();
    let wrapped = inspect(fs);
    let file = FileInode::retrieve(&wrapped, 2).unwrap();
    assert_eq!(file.get_size(), BLOCK_SIZE);
    assert_eq!(file.get_blocks().len(), 1);
    assert_eq!(file.internal_flag_size(), 0);
    let mut fs = FileSys::mount(wrapped.into_inner().unmount()).unwrap();
    fs.append(name("f"), &[3u8; 1]).unwrap();
    let wrapped = inspect(fs);
    let file = FileInode::retrieve(&wrapped, 2).unwrap();
    assert_eq!(file.get_size(), BLOCK_SIZE + 1);
    assert_eq!(file.get_blocks().len(), 2);
}

#[test]
fn append_of_nothing_changes_nothing_but_succeeds() {
    let mut fs = fresh();
    fs.create(name("f")).unwrap();
    fs.append(name("f"), b"abc").unwrap();
    let before = fs.unmount();
    let mut fs = FileSys::mount(before.clone()).unwrap();
    fs.append(name("f"), b"").unwrap();
    assert_eq!(fs.unmount(), before);
}

#[test]
fn append_to_the_largest_size_and_no_further() {
    let mut fs = fresh();
    fs.create(name("f")).unwrap();
    fs.append(name("f"), &vec![5u8; MAX_FILE_SIZE]).unwrap();
    assert_eq!(fs.append(name("f"), b"x"), Err(FSError::FileFullError));
    assert_eq!(fs.cat(name("f")).unwrap(), vec![5u8; MAX_FILE_SIZE]);
    fs.create(name("g")).unwrap();
    assert_eq!(fs.append(name("g"), &vec![5u8; MAX_FILE_SIZE + 1]), Err(FSError::FileFullError));
    assert_eq!(fs.cat(name("g")).unwrap(), Vec::<u8>::new());
}

#[test]
fn append_on_a_full_disk_takes_nothing() {
    let mut fs = fresh();
    fs.create(name("f")).unwrap();
    let image = fs.unmount();
    let mut wrapped = WrappedFileSys::new(image).unwrap();
    while let Some(id) = wrapped.file_sys().get_free_block() {
        if id == NUM_BLOCKS - 1 {
            break;
        }
    }
    wrapped.file_sys().reclaim_block(5000).unwrap();
    let before = wrapped.into_inner().unmount();
    let mut fs = FileSys::mount(before.clone()).unwrap();
    assert_eq!(fs.append(name("f"), &vec![1u8; BLOCK_SIZE + 1]), Err(FSError::DiskFullError));
    assert_eq!(fs.unmount(), before);
    let mut fs = FileSys::mount(before).unwrap();
    assert_eq!(fs.append(name("f"), &vec![1u8; BLOCK_SIZE]), Ok(()));
    assert_eq!(fs.create(name("g")), Err(FSError::DiskFullError));
    assert_eq!(fs.mkdir(name("g")), Err(FSError::DiskFullError));
}

#[test]
fn append_and_cat_tell_files_from_directories() {
    let mut fs = fresh();
    fs.mkdir(name("d")).unwrap();
    assert_eq!(fs.append(name("d"), b"x"), Err(FSError::NotAFileError));
    assert_eq!(fs.cat(name("d")), Err(FSError::NotAFileError));
    assert_eq!(fs.rm(name("d")), Err(FSError::NotAFileError));
    assert_eq!(fs.append(name("none"), b"x"), Err(FSError::FileNotFoundError));
    assert_eq!(fs.cat(name("none")), Err(FSError::FileNotFoundError));
    assert_eq!(fs.rm(name("none")), Ok(()));
}

#[test]
fn a_full_directory_takes_no_more() {
    let mut fs = fresh();
    for i in 0..MAX_DIR_ENTRIES {
        fs.create(name(&format!("file{:02}", i))).unwrap();
    }
    let before = fs.unmount();
    let mut fs = FileSys::mount(before.clone()).unwrap();
    let listing = fs.ls().unwrap();
    assert_eq!(fs.create(name("onemore")), Err(FSError::DirFullError));
    assert_eq!(fs.mkdir(name("onemore")), Err(FSError::DirFullError));
    assert_eq!(fs.ls().unwrap(), listing);
    assert_eq!(fs.unmount(), before);
}

#[test]
fn a_directory_with_entries_stays() {
    let mut fs = fresh();
    fs.mkdir(name("d")).unwrap();
    fs.cd(name("d")).unwrap();
    fs.create(name("x")).unwrap();
    fs.home().unwrap();
    assert_eq!(fs.rmdir(name("d")), Err(FSError::DirNotEmptyError));
    assert_eq!(fs.ls().unwrap().into_bytes(), [&name("d")[..], b"/"].concat());
    fs.cd(name("d")).unwrap();
    assert_eq!(fs.ls().unwrap().as_bytes(), &name("x")[..]);
}

#[test]
fn a_name_is_taken_once() {
    let mut fs = fresh();
    fs.create(name("n")).unwrap();
    assert_eq!(fs.create(name("n")), Err(FSError::FileExistsError));
    assert_eq!(fs.mkdir(name("n")), Err(FSError::FileExistsError));
    fs.mkdir(name("m")).unwrap();
    assert_eq!(fs.create(name("m")), Err(FSError::FileExistsError));
    assert_eq!(fs.create([0u8; MAX_FNAME_SIZE]), Err(FSError::FileNameTooLongError));
    let wrapped = inspect(fs);
    assert_eq!(allocated(&wrapped), vec![0, 1, 2, 3]);
}

#[test]
fn cd_goes_into_directories_only() {
    let mut fs = fresh();
    fs.create(name("f")).unwrap();
    fs.mkdir(name("d")).unwrap();
    assert_eq!(fs.cd(name("f")), Err(FSError::FileNotFoundError));
    assert_eq!(fs.cd(name("none")), Err(FSError::FileNotFoundError));
    assert_eq!(fs.cd(name("d")), Ok(()));
    assert_eq!(fs.ls().unwrap(), "");
    assert_eq!(fs.cd(name("d")), Err(FSError::FileNotFoundError));
    assert_eq!(fs.home(), Ok(()));
    assert_eq!(fs.ls().unwrap().into_bytes(), [&name("d")[..], b"/ ", &name("f")[..]].concat());
}

#[test]
fn mkdir_cd_home_rmdir_leaves_no_trace() {
    let mut fs = fresh();
    fs.create(name("f")).unwrap();
    let before = inspect(fs);
    let taken = allocated(&before);
    let listing_before = {
        let home = DirInode::retrieve(&before, 1).unwrap();
        (home.get_num_entries(), home.get_file_inode_entries().len(), home.get_dir_inode_entries().len())
    };
    let mut home_block = Vec::new();
    before.file_sys_ref().read_block(1, &mut home_block).unwrap();
    let mut fs = FileSys::mount(before.into_inner().unmount()).unwrap();
    fs.mkdir(name("n")).unwrap();
    fs.cd(name("n")).unwrap();
    fs.home().unwrap();
    fs.rmdir(name("n")).unwrap();
    let after = inspect(fs);
    assert_eq!(allocated(&after), taken);
    let home = DirInode::retrieve(&after, 1).unwrap();
    assert_eq!(
        (home.get_num_entries(), home.get_file_inode_entries().len(), home.get_dir_inode_entries().len()),
        listing_before
    );
    let mut home_after = Vec::new();
    after.file_sys_ref().read_block(1, &mut home_after).unwrap();
    assert_eq!(home_after, home_block);
}

#[test]
fn rmdir_of_a_missing_name_fails() {
    let mut fs = fresh();
    fs.create(name("f")).unwrap();
    assert_eq!(fs.rmdir(name("none")), Err(FSError::FileNotFoundError));
    assert_eq!(fs.rmdir(name("f")), Err(FSError::FileNotFoundError));
}

#[test]
fn create_then_rm_frees_every_block() {
    let mut fs = fresh();
    fs.mkdir(name("d")).unwrap();
    let before = inspect(fs);
    let taken = allocated(&before);
    let mut fs = FileSys::mount(before.into_inner().unmount()).unwrap();
    fs.create(name("f")).unwrap();
    fs.append(name("f"), &vec![1u8; 3 * BLOCK_SIZE + 5]).unwrap();
    fs.rm(name("f")).unwrap();
    assert_eq!(fs.cat(name("f")), Err(FSError::FileNotFoundError));
    let after = inspect(fs);
    assert_eq!(allocated(&after), taken);
    let home = DirInode::retrieve(&after, 1).unwrap();
    assert_eq!(home.get_num_entries(), 1);
    assert_eq!(home.get_file_inode_entries().len(), 0);
}

#[test]
fn blocks_of_removed_files_are_used_again() {
    let mut fs = fresh();
    fs.create(name("a")).unwrap();
    fs.append(name("a"), &[7u8; 10]).unwrap();
    fs.create(name("b")).unwrap();
    fs.rm(name("a")).unwrap();
    fs.create(name("c")).unwrap();
    fs.append(name("c"), &[8u8; 10]).unwrap();
    assert_eq!(fs.cat(name("c")).unwrap(), vec![8u8; 10]);
    let wrapped = inspect(fs);
    assert_eq!(allocated(&wrapped), vec![0, 1, 2, 3, 4]);
    let home = DirInode::retrieve(&wrapped, 1).unwrap();
    let ids: Vec<usize> = home.get_file_inode_entries().iter().map(|e| e.get_id()).collect();
    assert_eq!(ids, vec![2, 4]);
}

#[test]
fn entry_counts_follow_the_slots() {
    let mut fs = fresh();
    fs.create(name("a")).unwrap();
    fs.mkdir(name("b")).unwrap();
    fs.create(name("c")).unwrap();
    fs.rm(name("a")).unwrap();
    let wrapped = inspect(fs);
    let home = DirInode::retrieve(&wrapped, 1).unwrap();
    assert_eq!(home.get_num_entries(), 2);
    assert_eq!(home.get_file_inode_entries().len() + home.get_dir_inode_entries().len(), 2);
    assert!(home.has_free_entry());
    assert!(home.has_name(name("b")));
    assert!(home.has_name(name("c")));
    assert!(!home.has_name(name("a")));
}

#[test]
fn dir_inode_adds_and_removes_entries() {
    let mut wrapped = WrappedFileSys::new(Vec::new()).unwrap();
    let mut dir = DirInode::new(&mut wrapped).unwrap();
    assert_eq!(dir.get_id(), 2);
    assert_eq!(dir.get_num_entries(), 0);
    let file = FileInode::new(&mut wrapped).unwrap();
    let entry = DirEntry::new(name("x"), file.get_id());
    assert_eq!(entry.get_name(), name("x"));
    assert_eq!(entry.get_id(), 3);
    dir.add_file_entry(&mut wrapped, entry).unwrap();
    let sub = DirInode::new(&mut wrapped).unwrap();
    dir.add_dir_entry(&mut wrapped, DirEntry::new(name("y"), sub.get_id())).unwrap();
    assert_eq!(dir.get_num_entries(), 2);
    let loaded = DirInode::retrieve(&wrapped, 2).unwrap();
    assert_eq!(loaded.get_num_entries(), 2);
    assert_eq!(loaded.get_file_inode_entries().len(), 1);
    assert_eq!(loaded.get_file_inode_entries()[0].get_name(), name("x"));
    assert_eq!(loaded.get_dir_inode_entries().len(), 1);
    assert_eq!(loaded.get_dir_inode_entries()[0].get_id(), 4);
    dir.remove_file_entry(&mut wrapped, 99).unwrap();
    assert_eq!(dir.get_num_entries(), 2);
    dir.remove_file_entry(&mut wrapped, 3).unwrap();
    assert_eq!(dir.get_num_entries(), 1);
    assert_eq!(dir.get_file_inode_entries().len(), 0);
    dir.remove_dir_entry(&mut wrapped, 4).unwrap();
    assert_eq!(dir.get_num_entries(), 0);
    let loaded = DirInode::retrieve(&wrapped, 2).unwrap();
    assert_eq!(loaded.get_num_entries(), 0);
    sub.destroy(&mut wrapped);
    file.destroy(&mut wrapped);
    dir.destroy(&mut wrapped);
    assert_eq!(allocated(&wrapped), vec![0, 1]);
}

#[test]
fn dir_inode_fills_up() {
    let mut wrapped = WrappedFileSys::new(Vec::new()).unwrap();
    let mut dir = DirInode::retrieve(&wrapped, 1).unwrap();
    let file = FileInode::new(&mut wrapped).unwrap();
    for i in 0..MAX_DIR_ENTRIES {
        assert!(dir.has_free_entry());
        dir.add_file_entry(&mut wrapped, DirEntry::new(name(&format!("n{}", i)), file.get_id())).unwrap();
    }
    assert!(!dir.has_free_entry());
    assert_eq!(
        dir.add_file_entry(&mut wrapped, DirEntry::new(name("m"), file.get_id())),
        Err(FSError::DirFullError)
    );
    assert_eq!(
        dir.add_dir_entry(&mut wrapped, DirEntry::new(name("m"), file.get_id())),
        Err(FSError::DirFullError)
    );
}

#[test]
fn file_inode_adds_and_removes_blocks() {
    let mut wrapped = WrappedFileSys::new(Vec::new()).unwrap();
    let mut file = FileInode::new(&mut wrapped).unwrap();
    assert_eq!(file.get_id(), 2);
    assert_eq!(file.get_size(), 0);
    assert!(file.has_free_block());
    let a = DataBlock::new(&mut wrapped).unwrap();
    let b = DataBlock::new(&mut wrapped).unwrap();
    let c = DataBlock::new(&mut wrapped).unwrap();
    file.add_block(&mut wrapped, a).unwrap();
    file.add_block(&mut wrapped, b).unwrap();
    file.add_block(&mut wrapped, c).unwrap();
    file.set_size(&mut wrapped, 2 * BLOCK_SIZE + 10).unwrap();
    assert_eq!(file.internal_flag_size(), 10);
    let loaded = FileInode::retrieve(&wrapped, 2).unwrap();
    let ids: Vec<usize> = loaded.get_blocks().iter().map(|b| b.get_id()).collect();
    assert_eq!(ids, vec![3, 4, 5]);
    assert_eq!(loaded.get_size(), 2 * BLOCK_SIZE + 10);
    assert_eq!(&loaded.get_raw().get_blocks()[..4], &[3, 4, 5, 0]);
    let middle = DataBlock::retrieve(&wrapped, 4).unwrap();
    file.remove_block(&mut wrapped, &middle).unwrap();
    assert_eq!(file.remove_block(&mut wrapped, &middle), Err(FSError::FileSysError));
    let loaded = FileInode::retrieve(&wrapped, 2).unwrap();
    let ids: Vec<usize> = loaded.get_blocks().iter().map(|b| b.get_id()).collect();
    assert_eq!(ids, vec![3, 5]);
    assert_eq!(&loaded.get_raw().get_blocks()[..3], &[3, 5, 0]);
    assert_eq!(loaded.get_raw().get_blocks().len(), MAX_DATA_BLOCKS);
}

#[test]
fn file_inode_fills_up() {
    let mut wrapped = WrappedFileSys::new(Vec::new()).unwrap();
    let mut file = FileInode::new(&mut wrapped).unwrap();
    for _ in 0..MAX_DATA_BLOCKS {
        let block = DataBlock::new(&mut wrapped).unwrap();
        file.add_block(&mut wrapped, block).unwrap();
    }
    assert!(!file.has_free_block());
    let block = DataBlock::new(&mut wrapped).unwrap();
    assert_eq!(file.add_block(&mut wrapped, block), Err(FSError::FileFullError));
}

#[test]
fn blocks_are_told_apart_by_their_magic_number() {
    let mut wrapped = WrappedFileSys::new(Vec::new()).unwrap();
    let file = FileInode::new(&mut wrapped).unwrap();
    let dir = DirInode::new(&mut wrapped).unwrap();
    let data = DataBlock::new(&mut wrapped).unwrap();
    assert!(matches!(FileInode::retrieve(&wrapped, dir.get_id()), Err(FSError::FileSysError)));
    assert!(matches!(DirInode::retrieve(&wrapped, file.get_id()), Err(FSError::FileSysError)));
    assert!(matches!(DirInode::retrieve(&wrapped, data.get_id()), Err(FSError::FileSysError)));
    assert!(matches!(FileInode::retrieve(&wrapped, data.get_id()), Err(FSError::FileSysError)));
    let mut torn = vec![0u8; BLOCK_SIZE];
    torn[..4].copy_from_slice(&[0xFE, 0xFF, 0xFF, 0xFF]);
    wrapped.file_sys().write_block(100, &torn).unwrap();
    assert!(matches!(FileInode::retrieve(&wrapped, 100), Err(FSError::SerializeError)));
    torn[0] = 0xFF;
    torn[16] = 0xFF;
    torn[17] = 0xFF;
    wrapped.file_sys().write_block(100, &torn).unwrap();
    assert!(matches!(DirInode::retrieve(&wrapped, 100), Err(FSError::SerializeError)));
    assert!(matches!(FileInode::retrieve(&wrapped, NUM_BLOCKS), Err(FSError::BlockError)));
    let mut home = DirInode::retrieve(&wrapped, 1).unwrap();
    home.add_file_entry(&mut wrapped, DirEntry::new(name("bad"), data.get_id())).unwrap();
    assert!(matches!(DirInode::retrieve(&wrapped, 1), Err(FSError::FileSysError)));
    let mut block = Vec::new();
    wrapped.file_sys_ref().read_block(file.get_id(), &mut block).unwrap();
    assert_eq!(&block[..8], &[0xFE, 0xFF, 0xFF, 0xFF, 0, 0, 0, 0]);
    wrapped.file_sys_ref().read_block(dir.get_id(), &mut block).unwrap();
    assert_eq!(&block[..8], &[0xFF, 0xFF, 0xFF, 0xFF, 0, 0, 0, 0]);
}

#[test]
fn records_can_be_written_into_handles() {
    let mut wrapped = WrappedFileSys::new(Vec::new()).unwrap();
    let mut file = FileInode::new(&mut wrapped).unwrap();
    let other = FileInode::new(&mut wrapped).unwrap();
    let mut grown = FileInode::retrieve(&wrapped, other.get_id()).unwrap();
    grown.set_size(&mut wrapped, 77).unwrap();
    let record = FileInode::retrieve(&wrapped, other.get_id()).unwrap();
    assert_eq!(record.get_raw().get_blocks().len(), MAX_DATA_BLOCKS);
    let raw = blockfs::virtual_file_sys::inode::Inode::new();
    file.write_and_set_raw_block(&mut wrapped, raw).unwrap();
    assert_eq!(file.get_size(), 0);
    assert_eq!(FileInode::retrieve(&wrapped, file.get_id()).unwrap().get_size(), 0);
    assert_eq!(FileInode::retrieve(&wrapped, other.get_id()).unwrap().get_size(), 77);
    let mut home = DirInode::retrieve(&wrapped, 1).unwrap();
    home.add_file_entry(&mut wrapped, DirEntry::new(name("f"), file.get_id())).unwrap();
    assert_eq!(home.get_num_entries(), 1);
    home.write_and_set_raw_block(&mut wrapped, blockfs::virtual_file_sys::inode::DirBlock::new()).unwrap();
    assert_eq!(home.get_num_entries(), 0);
    assert_eq!(DirInode::retrieve(&wrapped, 1).unwrap().get_num_entries(), 0);
    assert_eq!(DirInode::retrieve(&wrapped, 1).unwrap().get_file_inode_entries().len(), 0);
}

#[test]
fn the_working_directory_can_be_set_and_checked() {
    let mut fs = fresh();
    fs.mkdir(name("d")).unwrap();
    fs.create(name("f")).unwrap();
    let home = fs.get_working_dir().unwrap();
    assert_eq!(home.get_id(), 1);
    assert_eq!(fs.validate_before_new_entry(&home, name("new")), Ok(()));
    assert_eq!(fs.validate_before_new_entry(&home, name("d")), Err(FSError::FileExistsError));
    assert_eq!(fs.validate_before_new_entry(&home, name("f")), Err(FSError::FileExistsError));
    assert_eq!(
        fs.validate_before_new_entry(&home, [0u8; MAX_FNAME_SIZE]),
        Err(FSError::FileNameTooLongError)
    );
    let sub = home.get_dir_inode_entries()[0].get_id();
    let wrapped = WrappedFileSys::new(fs.snapshot()).unwrap();
    fs.set_working_dir(DirInode::retrieve(&wrapped, sub).unwrap());
    assert_eq!(fs.get_working_dir().unwrap().get_id(), sub);
    assert_eq!(fs.ls().unwrap(), "");
}

#[test]
fn a_file_keeps_zeros_behind_its_last_byte() {
    let mut fs = fresh();
    fs.create(name("a")).unwrap();
    fs.append(name("a"), &[0xAB; 2000]).unwrap();
    fs.rm(name("a")).unwrap();
    fs.create(name("b")).unwrap();
    fs.append(name("b"), &[0xCD; 10]).unwrap();
    fs.append(name("b"), &[0xEF; 5]).unwrap();
    let wrapped = inspect(fs);
    let file = FileInode::retrieve(&wrapped, 2).unwrap();
    let data = file.get_blocks()[0].get_data();
    assert_eq!(&data[..10], &[0xCD; 10]);
    assert_eq!(&data[10..15], &[0xEF; 5]);
    assert!(data[15..].iter().all(|b| *b == 0));
}
