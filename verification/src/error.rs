//! The error kinds of the file system and their wire codes.

use vstd::prelude::*;

verus! {

/// Everything that can go wrong in the file system or in front of it.
#[derive(Clone, Copy, Debug, PartialEq, Eq, Structural)]
pub enum FSError {
    /// The backing image could not be read or written in full.
    IOError,
    /// A command line did not start with a known command word.
    CmdParseError,
    /// The backing image could not be positioned at a block.
    SeekFailure,
    /// A block number or a block length is out of range.
    BlockError,
    /// A block does not hold an encoded record.
    SerializeError,
    /// The image is inconsistent: a magic number or a count is wrong.
    FileSysError,
    /// The name resolves to a file where a directory is needed.
    NotDirError,
    /// The name resolves to a directory where a file is needed.
    NotAFileError,
    /// The name is already taken in the directory.
    FileExistsError,
    /// The name is not in the directory.
    FileNotFoundError,
    /// The name does not fit the fixed-width name field.
    FileNameTooLongError,
    /// No block of the image is free.
    DiskFullError,
    /// No entry of the directory is free.
    DirFullError,
    /// The directory still has entries.
    DirNotEmptyError,
    /// The file would outgrow what one inode can index.
    FileFullError,
}

/// The error of a result, if it is one.
pub open spec fn error_of<T>(r: Result<T, FSError>) -> Option<FSError> {
    match r {
        Ok(_) => None,
        Err(e) => Some(e),
    }
}

impl FSError {
    /// The numeric code that the wire protocol carries for this error, if it has one.
    pub open spec fn spec_code(self) -> Option<u16> {
        match self {
            FSError::NotDirError => Some(500u16),
            FSError::NotAFileError => Some(501u16),
            FSError::FileExistsError => Some(502u16),
            FSError::FileNotFoundError => Some(503u16),
            FSError::FileNameTooLongError => Some(504u16),
            FSError::DiskFullError => Some(505u16),
            FSError::DirFullError => Some(506u16),
            FSError::DirNotEmptyError => Some(507u16),
            FSError::FileFullError => Some(508u16),
            _ => None,
        }
    }

    /// The wire code of a name-space or capacity error; `None` for the
    /// structural and protocol errors, which have none.
    #[verifier::when_used_as_spec(spec_code)]
    pub fn code(self) -> (c: Option<u16>)
        ensures
            c == self.spec_code(),
    {
        match self {
            FSError::NotDirError => Some(500u16),
            FSError::NotAFileError => Some(501u16),
            FSError::FileExistsError => Some(502u16),
            FSError::FileNotFoundError => Some(503u16),
            FSError::FileNameTooLongError => Some(504u16),
            FSError::DiskFullError => Some(505u16),
            FSError::DirFullError => Some(506u16),
            FSError::DirNotEmptyError => Some(507u16),
            FSError::FileFullError => Some(508u16),
            _ => None,
        }
    }

    /// The text shown for this error; coded errors start with their code.
    pub open spec fn spec_message(self) -> Seq<char> {
        match self {
            FSError::IOError => "IO error"@,
            FSError::CmdParseError => "Command parse error"@,
            FSError::SeekFailure => "Block seek failure"@,
            FSError::BlockError => "Invalid block"@,
            FSError::SerializeError => "Serialize error"@,
            FSError::FileSysError => "A File System error has occured"@,
            FSError::NotDirError => "500 File is not a directory"@,
            FSError::NotAFileError => "501 File is a directory"@,
            FSError::FileExistsError => "502 File exists"@,
            FSError::FileNotFoundError => "503 File does not exist"@,
            FSError::FileNameTooLongError => "504 File name is too long"@,
            FSError::DiskFullError => "505 Disk is full"@,
            FSError::DirFullError => "506 Directory is full"@,
            FSError::DirNotEmptyError => "507 Directory is not empty"@,
            FSError::FileFullError => "508 Append exceeds maximum file size"@,
        }
    }

    /// The message of this error as an owned string.
    pub fn message(self) -> (s: String)
        ensures
            s@ == self.spec_message(),
    {
        match self {
            FSError::IOError => "IO error".to_owned(),
            FSError::CmdParseError => "Command parse error".to_owned(),
            FSError::SeekFailure => "Block seek failure".to_owned(),
            FSError::BlockError => "Invalid block".to_owned(),
            FSError::SerializeError => "Serialize error".to_owned(),
            FSError::FileSysError => "A File System error has occured".to_owned(),
            FSError::NotDirError => "500 File is not a directory".to_owned(),
            FSError::NotAFileError => "501 File is a directory".to_owned(),
            FSError::FileExistsError => "502 File exists".to_owned(),
            FSError::FileNotFoundError => "503 File does not exist".to_owned(),
            FSError::FileNameTooLongError => "504 File name is too long".to_owned(),
            FSError::DiskFullError => "505 Disk is full".to_owned(),
            FSError::DirFullError => "506 Directory is full".to_owned(),
            FSError::DirNotEmptyError => "507 Directory is not empty".to_owned(),
            FSError::FileFullError => "508 Append exceeds maximum file size".to_owned(),
        }
    }
}

} // verus!
