//! The commands that a shell sends to the file system, and how a line of
//! input is read as one.

use vstd::prelude::*;
use vstd::slice::{slice_subrange, slice_to_vec};
use vstd::utf8::encode_utf8;
use crate::error::FSError;
use crate::virtual_file_sys::block::MAX_FNAME_SIZE;

verus! {

/// The operations that a command can ask for.
#[allow(non_camel_case_types)]
#[derive(Clone, Copy, Debug, PartialEq, Eq, Structural)]
pub enum CommandType {
    mkdir,
    ls,
    cd,
    home,
    rmdir,
    create,
    append,
    cat,
    rm,
}

/// One command: the operation and the bytes that follow the command word.
#[derive(Debug)]
pub struct Command {
    pub cmd: CommandType,
    pub parameter: Vec<u8>,
}

/// The word that opens a line for each operation that a line can ask for,
/// and how many bytes of the line it takes up. The word of `ls` stands
/// without the space that the others end in, though the space's place is
/// taken up all the same.
pub open spec fn command_word(cmd: CommandType) -> (Seq<u8>, nat) {
    match cmd {
        CommandType::mkdir => (seq![109u8, 107u8, 100u8, 105u8, 114u8, 32u8], 6),
        CommandType::ls => (seq![108u8, 115u8], 3),
        CommandType::cd => (seq![99u8, 100u8, 32u8], 3),
        CommandType::home => (seq![104u8, 111u8, 109u8, 101u8], 4),
        CommandType::rmdir => (seq![114u8, 109u8, 100u8, 105u8, 114u8, 32u8], 6),
        CommandType::create => (seq![99u8, 114u8, 101u8, 97u8, 116u8, 101u8, 32u8], 7),
        CommandType::rm => (seq![114u8, 109u8, 32u8], 3),
        _ => (Seq::empty(), 0),
    }
}

/// Whether `bytes` opens with `word`.
pub open spec fn opens_with(bytes: Seq<u8>, word: Seq<u8>) -> bool {
    word.len() <= bytes.len() && bytes.take(word.len() as int) == word
}

/// Whether the line asks for `cmd`.
pub open spec fn asks_for(bytes: Seq<u8>, cmd: CommandType) -> bool {
    opens_with(bytes, command_word(cmd).0)
}

/// What is left of the line behind the word of `cmd`.
pub open spec fn parameter_of(bytes: Seq<u8>, cmd: CommandType) -> Seq<u8> {
    if command_word(cmd).1 <= bytes.len() {
        bytes.skip(command_word(cmd).1 as int)
    } else {
        Seq::empty()
    }
}

/// The operation that a line asks for, if it asks for one. The words are
/// tried in this order: `mkdir`, `ls`, `cd`, `home`, `rmdir`, `create`, `rm`.
pub open spec fn command_of(bytes: Seq<u8>) -> Option<CommandType> {
    if asks_for(bytes, CommandType::mkdir) {
        Some(CommandType::mkdir)
    } else if asks_for(bytes, CommandType::ls) {
        Some(CommandType::ls)
    } else if asks_for(bytes, CommandType::cd) {
        Some(CommandType::cd)
    } else if asks_for(bytes, CommandType::home) {
        Some(CommandType::home)
    } else if asks_for(bytes, CommandType::rmdir) {
        Some(CommandType::rmdir)
    } else if asks_for(bytes, CommandType::create) {
        Some(CommandType::create)
    } else if asks_for(bytes, CommandType::rm) {
        Some(CommandType::rm)
    } else {
        None
    }
}

/// Whether `bytes` opens with `word`.
fn has_prefix(bytes: &[u8], word: &[u8]) -> (r: bool)
    ensures
        r == opens_with(bytes@, word@),
{
    if word.len() > bytes.len() {
        return false;
    }
    let mut i: usize = 0;
    while i < word.len()
        invariant
            i <= word@.len() <= bytes@.len(),
            forall|j: int| 0 <= j < i ==> bytes@[j] == word@[j],
        decreases word@.len() - i,
    {
        if bytes[i] != word[i] {
            assert(bytes@.take(word@.len() as int)[i as int] != word@[i as int]);
            return false;
        }
        i += 1;
    }
    assert(bytes@.take(word@.len() as int) =~= word@);
    true
}

/// The command `cmd` with what is left of the line behind `cut` bytes.
fn command_with(cmd: CommandType, bytes: &[u8], cut: usize) -> (r: Command)
    ensures
        r.cmd == cmd,
        r.parameter@ == (if cut <= bytes@.len() {
            bytes@.skip(cut as int)
        } else {
            Seq::<u8>::empty()
        }),
{
    let parameter = if cut <= bytes.len() {
        slice_to_vec(slice_subrange(bytes, cut, bytes.len()))
    } else {
        Vec::new()
    };
    Command { cmd, parameter }
}

/// Reads a line as a command. The line asks for an operation by opening
/// with its word; the bytes behind the word are the parameter. Fails with
/// `CmdParseError` exactly when the line opens with none of the words.
pub fn parse_from_string(buf: String) -> (r: Result<Command, FSError>)
    ensures
        match r {
            Ok(command) => {
                &&& command_of(encode_utf8(buf@)) == Some(command.cmd)
                &&& command.parameter@ == parameter_of(encode_utf8(buf@), command.cmd)
            },
            Err(e) => e == FSError::CmdParseError && command_of(encode_utf8(buf@)) is None,
        },
{
    let bytes = buf.as_str().as_bytes();
    let mkdir: [u8; 6] = [109u8, 107u8, 100u8, 105u8, 114u8, 32u8];
    let ls: [u8; 2] = [108u8, 115u8];
    let cd: [u8; 3] = [99u8, 100u8, 32u8];
    let home: [u8; 4] = [104u8, 111u8, 109u8, 101u8];
    let rmdir: [u8; 6] = [114u8, 109u8, 100u8, 105u8, 114u8, 32u8];
    let create: [u8; 7] = [99u8, 114u8, 101u8, 97u8, 116u8, 101u8, 32u8];
    let rm: [u8; 3] = [114u8, 109u8, 32u8];
    assert(mkdir@ =~= command_word(CommandType::mkdir).0);
    assert(ls@ =~= command_word(CommandType::ls).0);
    assert(cd@ =~= command_word(CommandType::cd).0);
    assert(home@ =~= command_word(CommandType::home).0);
    assert(rmdir@ =~= command_word(CommandType::rmdir).0);
    assert(create@ =~= command_word(CommandType::create).0);
    assert(rm@ =~= command_word(CommandType::rm).0);
    if has_prefix(bytes, mkdir.as_slice()) {
        Ok(command_with(CommandType::mkdir, bytes, 6))
    } else if has_prefix(bytes, ls.as_slice()) {
        Ok(command_with(CommandType::ls, bytes, 3))
    } else if has_prefix(bytes, cd.as_slice()) {
        Ok(command_with(CommandType::cd, bytes, 3))
    } else if has_prefix(bytes, home.as_slice()) {
        Ok(command_with(CommandType::home, bytes, 4))
    } else if has_prefix(bytes, rmdir.as_slice()) {
        Ok(command_with(CommandType::rmdir, bytes, 6))
    } else if has_prefix(bytes, create.as_slice()) {
        Ok(command_with(CommandType::create, bytes, 7))
    } else if has_prefix(bytes, rm.as_slice()) {
        Ok(command_with(CommandType::rm, bytes, 3))
    } else {
        Err(FSError::CmdParseError)
    }
}

/// The name that a command's parameter stands for: the parameter's bytes,
/// right-padded with zeros to the width of a name.
pub open spec fn padded_name(parameter: Seq<u8>) -> Seq<u8> {
    parameter + Seq::new((MAX_FNAME_SIZE - parameter.len()) as nat, |i: int| 0u8)
}

/// Makes a name of a command's parameter. Fails with `FileNameTooLongError`
/// exactly when the parameter is empty or longer than a name.
pub fn name_of_parameter(parameter: &Vec<u8>) -> (r: Result<[u8; MAX_FNAME_SIZE], FSError>)
    ensures
        match r {
            Ok(name) => 0 < parameter@.len() <= MAX_FNAME_SIZE && name@ == padded_name(parameter@),
            Err(e) => e == FSError::FileNameTooLongError && !(0 < parameter@.len() <= MAX_FNAME_SIZE),
        },
{
    if parameter.len() > MAX_FNAME_SIZE || parameter.len() == 0 {
        return Err(FSError::FileNameTooLongError);
    }
    let mut name = [0u8; MAX_FNAME_SIZE];
    let mut i: usize = 0;
    while i < parameter.len()
        invariant
            i <= parameter@.len() <= MAX_FNAME_SIZE,
            forall|j: int| 0 <= j < i ==> name@[j] == parameter@[j],
            forall|j: int| i <= j < MAX_FNAME_SIZE ==> name@[j] == 0u8,
        decreases parameter@.len() - i,
    {
        name[i] = parameter[i];
        i += 1;
    }
    assert(name@ =~= padded_name(parameter@));
    Ok(name)
}

} // verus!
