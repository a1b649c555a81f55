use blockfs::command::{name_of_parameter, parse_from_string, CommandType};
use blockfs::error::FSError;
use blockfs::virtual_file_sys::block::{BlockBinary, BLOCK_SIZE};
use blockfs::virtual_file_sys::inode::{DirBlock, Inode};
use blockfs::virtual_file_sys::record::{decode_record, encode_record, pad_block};

#[test]
fn a_record_is_two_fields_a_length_and_the_payload() {
    let bytes = encode_record(0x0102030405060708, 2, vec![9, 8, 7]).unwrap();
    assert_eq!(
        bytes,
        vec![8, 7, 6, 5, 4, 3, 2, 1, 2, 0, 0, 0, 0, 0, 0, 0, 3, 0, 0, 0, 0, 0, 0, 0, 9, 8, 7]
    );
    assert_eq!(decode_record(&bytes), Ok((0x0102030405060708, 2, vec![9, 8, 7])));
    let mut longer = bytes.clone();
    longer.extend_from_slice(&[1, 1, 1]);
    assert_eq!(decode_record(&longer), Ok((0x0102030405060708, 2, vec![9, 8, 7])));
    assert_eq!(decode_record(&bytes[..26]), Err(FSError::SerializeError));
    assert_eq!(decode_record(&bytes[..23]), Err(FSError::SerializeError));
    assert_eq!(decode_record(&[0u8; 24]), Ok((0, 0, vec![])));
}

#[test]
fn padding_fills_a_block() {
    assert_eq!(pad_block(vec![]).unwrap(), vec![0u8; BLOCK_SIZE]);
    let padded = pad_block(vec![4, 5]).unwrap();
    assert_eq!(padded.len(), BLOCK_SIZE);
    assert_eq!(&padded[..3], &[4, 5, 0]);
    assert_eq!(pad_block(vec![1u8; BLOCK_SIZE]).unwrap(), vec![1u8; BLOCK_SIZE]);
    assert_eq!(pad_block(vec![1u8; BLOCK_SIZE + 1]), Err(FSError::BlockError));
}

#[test]
fn an_empty_inode_on_disk() {
    let bytes = Inode::new().to_bytes().unwrap();
    assert_eq!(bytes.len(), 24 + 2 * 254);
    assert_eq!(&bytes[..8], &[0xFE, 0xFF, 0xFF, 0xFF, 0, 0, 0, 0]);
    assert_eq!(&bytes[8..16], &[0u8; 8]);
    assert_eq!(&bytes[16..24], &[0xFC, 1, 0, 0, 0, 0, 0, 0]);
    assert!(bytes[24..].iter().all(|b| *b == 0));
    let inode = Inode::from_bytes(&pad_block(bytes.clone()).unwrap()).unwrap();
    assert_eq!(inode.to_bytes().unwrap(), bytes);
    assert!(matches!(Inode::from_bytes(&bytes[..bytes.len() - 1]), Err(FSError::SerializeError)));
    assert!(matches!(Inode::from_bytes(&[0u8; BLOCK_SIZE]), Err(FSError::SerializeError)));
}

#[test]
fn an_empty_directory_on_disk() {
    let bytes = DirBlock::new().to_bytes().unwrap();
    assert_eq!(bytes.len(), 24 + 17 * 31);
    assert_eq!(&bytes[..8], &[0xFF, 0xFF, 0xFF, 0xFF, 0, 0, 0, 0]);
    assert_eq!(&bytes[8..16], &[0u8; 8]);
    assert_eq!(&bytes[16..24], &[0x0F, 2, 0, 0, 0, 0, 0, 0]);
    assert!(bytes[24..].iter().all(|b| *b == 0));
    let dir = DirBlock::from_bytes(&pad_block(bytes.clone()).unwrap()).unwrap();
    assert_eq!(dir.to_bytes().unwrap(), bytes);
    assert!(matches!(DirBlock::from_bytes(&bytes[..bytes.len() - 1]), Err(FSError::SerializeError)));
    assert!(matches!(DirBlock::from_bytes(&Inode::new().to_bytes().unwrap()), Err(FSError::SerializeError)));
}

#[test]
fn lines_are_read_as_commands() {
    let command = parse_from_string("mkdir docs".to_string()).unwrap();
    assert_eq!(command.cmd, CommandType::mkdir);
    assert_eq!(command.parameter, b"docs".to_vec());
    let command = parse_from_string("ls".to_string()).unwrap();
    assert_eq!(command.cmd, CommandType::ls);
    assert_eq!(command.parameter, Vec::<u8>::new());
    let command = parse_from_string("ls ".to_string()).unwrap();
    assert_eq!(command.cmd, CommandType::ls);
    assert_eq!(command.parameter, Vec::<u8>::new());
    let command = parse_from_string("ls -l".to_string()).unwrap();
    assert_eq!(command.cmd, CommandType::ls);
    assert_eq!(command.parameter, b"-l".to_vec());
    let command = parse_from_string("cd docs".to_string()).unwrap();
    assert_eq!(command.cmd, CommandType::cd);
    assert_eq!(command.parameter, b"docs".to_vec());
    let command = parse_from_string("home".to_string()).unwrap();
    assert_eq!(command.cmd, CommandType::home);
    assert_eq!(command.parameter, Vec::<u8>::new());
    let command = parse_from_string("rmdir docs".to_string()).unwrap();
    assert_eq!(command.cmd, CommandType::rmdir);
    assert_eq!(command.parameter, b"docs".to_vec());
    let command = parse_from_string("create a b".to_string()).unwrap();
    assert_eq!(command.cmd, CommandType::create);
    assert_eq!(command.parameter, b"a b".to_vec());
    let command = parse_from_string("rm a".to_string()).unwrap();
    assert_eq!(command.cmd, CommandType::rm);
    assert_eq!(command.parameter, b"a".to_vec());
    assert!(matches!(parse_from_string("append a b".to_string()), Err(FSError::CmdParseError)));
    assert!(matches!(parse_from_string("cat a".to_string()), Err(FSError::CmdParseError)));
    assert!(matches!(parse_from_string("mkdir".to_string()), Err(FSError::CmdParseError)));
    assert!(matches!(parse_from_string("".to_string()), Err(FSError::CmdParseError)));
    assert!(matches!(parse_from_string(" ls".to_string()), Err(FSError::CmdParseError)));
}

#[test]
fn parameters_become_names() {
    assert_eq!(name_of_parameter(&b"abc".to_vec()), Ok(*b"abc\0\0\0\0\0\0"));
    assert_eq!(name_of_parameter(&b"123456789".to_vec()), Ok(*b"123456789"));
    assert_eq!(name_of_parameter(&b"1234567890".to_vec()), Err(FSError::FileNameTooLongError));
    assert_eq!(name_of_parameter(&Vec::new()), Err(FSError::FileNameTooLongError));
}

#[test]
fn errors_carry_their_codes() {
    assert_eq!(FSError::NotDirError.code(), Some(500));
    assert_eq!(FSError::NotAFileError.code(), Some(501));
    assert_eq!(FSError::FileExistsError.code(), Some(502));
    assert_eq!(FSError::FileNotFoundError.code(), Some(503));
    assert_eq!(FSError::FileNameTooLongError.code(), Some(504));
    assert_eq!(FSError::DiskFullError.code(), Some(505));
    assert_eq!(FSError::DirFullError.code(), Some(506));
    assert_eq!(FSError::DirNotEmptyError.code(), Some(507));
    assert_eq!(FSError::FileFullError.code(), Some(508));
    assert_eq!(FSError::IOError.code(), None);
    assert_eq!(FSError::CmdParseError.code(), None);
    assert_eq!(FSError::SeekFailure.code(), None);
    assert_eq!(FSError::BlockError.code(), None);
    assert_eq!(FSError::SerializeError.code(), None);
    assert_eq!(FSError::FileSysError.code(), None);
    assert_eq!(FSError::FileExistsError.message(), "502 File exists");
    assert_eq!(FSError::FileFullError.message(), "508 Append exceeds maximum file size");
    assert_eq!(FSError::IOError.message(), "IO error");
}
