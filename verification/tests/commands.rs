use blockfs::command::{parse_from_string, Command, CommandType};
use blockfs::error::FSError;
use blockfs::server::execute;
use blockfs::virtual_file_sys::block::NUM_BLOCKS;
use blockfs::virtual_file_sys::file_sys::{FileSys, WrappedFileSys};
use blockfs::virtual_file_sys::inode::{DirInode, FileInode};

fn command(cmd: CommandType, parameter: &[u8]) -> Command {
    Command { cmd, parameter: parameter.to_vec() }
}

fn run(fs: &mut FileSys, line: &str) -> Result<Vec<u8>, FSError> {
    execute(fs, &parse_from_string(line.to_string()).unwrap())
}

fn marked(wrapped: &WrappedFileSys) -> Vec<usize> {
    let mut bitmap = Vec::new();
    wrapped.file_sys_ref().read_block(0, &mut bitmap).unwrap();
    (0..NUM_BLOCKS).filter(|n| bitmap[n / 8] & (1 << (n % 8)) != 0).collect()
}

fn led_to(wrapped: &WrappedFileSys, dir: usize, found: &mut Vec<usize>) {
    found.push(dir);
    let dir = DirInode::retrieve(wrapped, dir).unwrap();
    assert_eq!(
        dir.get_num_entries(),
        dir.get_file_inode_entries().len() + dir.get_dir_inode_entries().len()
    );
    for entry in dir.get_file_inode_entries() {
        found.push(entry.get_id());
        let file = FileInode::retrieve(wrapped, entry.get_id()).unwrap();
        assert_eq!(file.get_size().div_ceil(1024), file.get_blocks().len());
        for block in file.get_blocks() {
            found.push(block.get_id());
        }
    }
    for entry in dir.get_dir_inode_entries() {
        led_to(wrapped, entry.get_id(), found);
    }
}

#[test]
fn commands_reach_the_file_system() {
    let mut fs = FileSys::mount(Vec::new()).unwrap();
    assert_eq!(run(&mut fs, "mkdir docs"), Ok(vec![]));
    assert_eq!(run(&mut fs, "create notes"), Ok(vec![]));
    assert_eq!(run(&mut fs, "ls"), Ok(b"docs\0\0\0\0\0/ notes\0\0\0\0".to_vec()));
    assert_eq!(run(&mut fs, "cd docs"), Ok(vec![]));
    assert_eq!(run(&mut fs, "ls"), Ok(vec![]));
    assert_eq!(run(&mut fs, "create inner"), Ok(vec![]));
    assert_eq!(run(&mut fs, "home"), Ok(vec![]));
    assert_eq!(run(&mut fs, "rmdir docs"), Err(FSError::DirNotEmptyError));
    assert_eq!(run(&mut fs, "cd docs"), Ok(vec![]));
    assert_eq!(run(&mut fs, "rm inner"), Ok(vec![]));
    assert_eq!(run(&mut fs, "home"), Ok(vec![]));
    assert_eq!(run(&mut fs, "rmdir docs"), Ok(vec![]));
    assert_eq!(run(&mut fs, "ls"), Ok(b"notes\0\0\0\0".to_vec()));
    assert_eq!(run(&mut fs, "rm notes"), Ok(vec![]));
    assert_eq!(run(&mut fs, "ls"), Ok(vec![]));
}

#[test]
fn commands_check_their_names() {
    let mut fs = FileSys::mount(Vec::new()).unwrap();
    assert_eq!(run(&mut fs, "mkdir 1234567890"), Err(FSError::FileNameTooLongError));
    assert_eq!(run(&mut fs, "create "), Err(FSError::FileNameTooLongError));
    assert_eq!(run(&mut fs, "cd 1234567890"), Err(FSError::FileNameTooLongError));
    assert_eq!(run(&mut fs, "rm "), Err(FSError::FileNameTooLongError));
    assert_eq!(run(&mut fs, "rmdir "), Err(FSError::FileNameTooLongError));
    assert_eq!(execute(&mut fs, &command(CommandType::cat, b"")), Err(FSError::FileNameTooLongError));
    assert_eq!(
        execute(&mut fs, &command(CommandType::append, b" data")),
        Err(FSError::FileNameTooLongError)
    );
    assert_eq!(run(&mut fs, "cd nowhere"), Err(FSError::FileNotFoundError));
    assert_eq!(run(&mut fs, "rmdir nowhere"), Err(FSError::FileNotFoundError));
    assert_eq!(run(&mut fs, "ls"), Ok(vec![]));
}

#[test]
fn append_and_cat_as_commands() {
    let mut fs = FileSys::mount(Vec::new()).unwrap();
    assert_eq!(run(&mut fs, "create f"), Ok(vec![]));
    assert_eq!(execute(&mut fs, &command(CommandType::append, b"f hello world")), Ok(vec![]));
    assert_eq!(execute(&mut fs, &command(CommandType::append, b"f")), Ok(vec![]));
    assert_eq!(execute(&mut fs, &command(CommandType::append, b"f !")), Ok(vec![]));
    assert_eq!(execute(&mut fs, &command(CommandType::cat, b"f")), Ok(b"hello world!".to_vec()));
    assert_eq!(
        execute(&mut fs, &command(CommandType::append, b"g x")),
        Err(FSError::FileNotFoundError)
    );
    assert_eq!(execute(&mut fs, &command(CommandType::cat, b"g")), Err(FSError::FileNotFoundError));
}

#[test]
fn a_listing_follows_the_entry_table_only() {
    let mut fs = FileSys::mount(Vec::new()).unwrap();
    run(&mut fs, "mkdir d").unwrap();
    run(&mut fs, "create f").unwrap();
    let listing = fs.ls().unwrap();
    execute(&mut fs, &command(CommandType::append, b"f some bytes")).unwrap();
    assert_eq!(fs.ls().unwrap(), listing);
    run(&mut fs, "cd d").unwrap();
    run(&mut fs, "create inner").unwrap();
    run(&mut fs, "mkdir deeper").unwrap();
    run(&mut fs, "home").unwrap();
    assert_eq!(fs.ls().unwrap(), listing);
    assert_eq!(fs.ls().unwrap(), fs.ls().unwrap());
    run(&mut fs, "create g").unwrap();
    assert_ne!(fs.ls().unwrap(), listing);
}

#[test]
fn the_bitmap_marks_what_home_leads_to() {
    let mut fs = FileSys::mount(Vec::new()).unwrap();
    let lines = [
        "mkdir a", "create f1", "cd a", "create f2", "mkdir b", "cd b", "create f3", "home",
        "create f4", "rm f1", "cd a", "rm f2", "cd b", "create f5", "home", "mkdir c", "rmdir c",
        "create f6",
    ];
    for (step, line) in lines.iter().enumerate() {
        run(&mut fs, line).unwrap();
        if step % 3 == 0 {
            let _ = execute(&mut fs, &command(CommandType::append, &[b"f4 ", &vec![7u8; 700 * step][..]].concat()));
            let _ = execute(&mut fs, &command(CommandType::append, &[b"f3 ", &vec![9u8; 1024][..]].concat()));
        }
        let wrapped = WrappedFileSys::new(fs.snapshot()).unwrap();
        let mut found = vec![0];
        led_to(&wrapped, 1, &mut found);
        found.sort();
        let before = found.len();
        found.dedup();
        assert_eq!(found.len(), before);
        assert_eq!(found, marked(&wrapped));
    }
}

#[test]
fn names_stay_unique() {
    let mut fs = FileSys::mount(Vec::new()).unwrap();
    run(&mut fs, "create n").unwrap();
    assert_eq!(run(&mut fs, "create n"), Err(FSError::FileExistsError));
    assert_eq!(run(&mut fs, "mkdir n"), Err(FSError::FileExistsError));
    run(&mut fs, "rm n").unwrap();
    run(&mut fs, "mkdir n").unwrap();
    assert_eq!(run(&mut fs, "create n"), Err(FSError::FileExistsError));
    let wrapped = WrappedFileSys::new(fs.snapshot()).unwrap();
    let home = DirInode::retrieve(&wrapped, 1).unwrap();
    assert_eq!(home.get_num_entries(), 1);
    assert_eq!(home.get_dir_inode_entries().len(), 1);
}
