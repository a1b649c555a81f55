//! What a server does with one command: which operation of the file system
//! it calls, with what, and what it hands back.

use vstd::prelude::*;
use vstd::slice::{slice_subrange, slice_to_vec};
use crate::command::{name_of_parameter, padded_name, Command, CommandType};
use crate::error::{FSError};
use crate::virtual_file_sys::block::{MAX_FNAME_SIZE};
use crate::virtual_file_sys::consistency::Role;
use crate::virtual_file_sys::file_sys::{
    append_result, cat_result, cd_result, listing, new_entry_result, rm_result, rmdir_result,
    FileSys, FileSysView,
};
use crate::virtual_file_sys::inode::{dir_at, dir_load_error, HOME_DIR_ID};
use crate::virtual_file_sys::preserve::new_block_of;

verus! {

/// Whether a parameter can be a name: it is neither empty nor longer than
/// a name.
pub open spec fn names_something(parameter: Seq<u8>) -> bool {
    0 < parameter.len() <= MAX_FNAME_SIZE
}

/// Where the first space of `bytes` stands; their length where there is
/// none.
pub open spec fn first_space(bytes: Seq<u8>) -> int
    decreases bytes.len(),
{
    if bytes.len() == 0 || bytes[0] == 32u8 {
        0
    } else {
        1 + first_space(bytes.drop_first())
    }
}

/// The part of the parameter of `append` that names the file: the bytes
/// before the first space.
pub open spec fn append_name(parameter: Seq<u8>) -> Seq<u8> {
    parameter.take(first_space(parameter))
}

/// The part of the parameter of `append` that is appended: the bytes behind
/// the first space.
pub open spec fn append_data(parameter: Seq<u8>) -> Seq<u8> {
    if first_space(parameter) < parameter.len() {
        parameter.skip(first_space(parameter) + 1)
    } else {
        Seq::empty()
    }
}

/// The first space lies within the bytes, and no space stands before it.
pub proof fn lemma_first_space(bytes: Seq<u8>)
    ensures
        0 <= first_space(bytes) <= bytes.len(),
        first_space(bytes) < bytes.len() ==> bytes[first_space(bytes)] == 32u8,
        forall|i: int| 0 <= i < first_space(bytes) ==> bytes[i] != 32u8,
    decreases bytes.len(),
{
    if bytes.len() != 0 && bytes[0] != 32u8 {
        let rest = bytes.drop_first();
        lemma_first_space(rest);
        assert forall|i: int| 0 <= i < first_space(bytes) implies bytes[i] != 32u8 by {
            if i > 0 {
                assert(rest[i - 1] == bytes[i]);
            }
        }
    }
}

/// A place with a space at it and none before it is where the first space
/// stands; and where no space stands at all, that is the end.
pub proof fn lemma_first_space_found(bytes: Seq<u8>, at: int)
    requires
        0 <= at <= bytes.len(),
        at < bytes.len() ==> bytes[at] == 32u8,
        forall|i: int| 0 <= i < at ==> bytes[i] != 32u8,
    ensures
        first_space(bytes) == at,
{
    lemma_first_space(bytes);
    let f = first_space(bytes);
    if f < at {
        assert(bytes[f] != 32u8);
    }
}

/// What a command does to the file system and what it hands back: the image
/// and the current working directory afterwards, and the bytes of the answer
/// or the error. Every command but `ls` and `home` takes a name from its
/// parameter and fails with `FileNameTooLongError`, with nothing changed,
/// where the parameter cannot be a name; `append` takes the name from before
/// the first space of its parameter and appends what stands behind that
/// space. `ls` answers with the listing and `cat` with the bytes of the file;
/// the other commands answer with no bytes.
pub open spec fn command_result(s: FileSysView, command: Command) -> (
    FileSysView,
    Result<Seq<u8>, FSError>,
) {
    let parameter = command.parameter@;
    let name = padded_name(parameter);
    let changed = |result: (Seq<Seq<u8>>, Option<FSError>)|
        (
            FileSysView { image: result.0, ..s },
            match result.1 {
                Some(e) => Err::<Seq<u8>, FSError>(e),
                None => Ok::<Seq<u8>, FSError>(Seq::empty()),
            },
        );
    match command.cmd {
        CommandType::ls => (
            s,
            if dir_load_error(s.image, s.cwd as int) is Some {
                Err(dir_load_error(s.image, s.cwd as int)->0)
            } else if vstd::utf8::valid_utf8(listing(dir_at(s.image, s.cwd as int))) {
                Ok(listing(dir_at(s.image, s.cwd as int)))
            } else {
                Err(FSError::FileSysError)
            },
        ),
        CommandType::home => (FileSysView { cwd: HOME_DIR_ID as usize, ..s }, Ok(Seq::empty())),
        CommandType::append => if !names_something(append_name(parameter)) {
            (s, Err(FSError::FileNameTooLongError))
        } else {
            changed(append_result(s, padded_name(append_name(parameter)), append_data(parameter)))
        },
        _ => if !names_something(parameter) {
            (s, Err(FSError::FileNameTooLongError))
        } else {
            match command.cmd {
                CommandType::mkdir => changed(new_entry_result(s, name, new_block_of(Role::Dir))),
                CommandType::create => changed(new_entry_result(s, name, new_block_of(Role::File))),
                CommandType::rmdir => changed(rmdir_result(s, name)),
                CommandType::rm => changed(rm_result(s, name)),
                CommandType::cd => match cd_result(s, name) {
                    Ok(target) => (FileSysView { cwd: target, ..s }, Ok(Seq::empty())),
                    Err(e) => (s, Err(e)),
                },
                _ => (s, cat_result(s, name)),
            }
        },
    }
}

/// Where the first space of `bytes` stands.
fn find_space(bytes: &Vec<u8>) -> (at: usize)
    ensures
        at == first_space(bytes@),
        at <= bytes@.len(),
{
    let mut i: usize = 0;
    while i < bytes.len() && bytes[i] != 32u8
        invariant
            i <= bytes@.len(),
            forall|j: int| 0 <= j < i ==> bytes@[j] != 32u8,
        decreases bytes@.len() - i,
    {
        i += 1;
    }
    proof {
        lemma_first_space_found(bytes@, i as int);
    }
    i
}

/// Carries out one command on the file system, as `command_result` says.
pub fn execute(fs: &mut FileSys, command: &Command) -> (r: Result<Vec<u8>, FSError>)
    ensures
        final(fs)@ == command_result(old(fs)@, *command).0,
        match r {
            Ok(bytes) => command_result(old(fs)@, *command).1 == Ok::<Seq<u8>, FSError>(bytes@),
            Err(e) => command_result(old(fs)@, *command).1 == Err::<Seq<u8>, FSError>(e),
        },
{
    match command.cmd {
        CommandType::ls => {
            match fs.ls() {
                Ok(text) => Ok(slice_to_vec(text.as_str().as_bytes())),
                Err(e) => Err(e),
            }
        },
        CommandType::home => {
            let _ = fs.home();
            Ok(Vec::new())
        },
        CommandType::append => {
            let at = find_space(&command.parameter);
            let name_bytes = slice_to_vec(slice_subrange(command.parameter.as_slice(), 0, at));
            let name = match name_of_parameter(&name_bytes) {
                Ok(name) => name,
                Err(e) => {
                    return Err(e);
                },
            };
            let from = if at < command.parameter.len() {
                at + 1
            } else {
                at
            };
            let data = slice_subrange(command.parameter.as_slice(), from, command.parameter.len());
            assert(data@ =~= append_data(command.parameter@));
            match fs.append(name, data) {
                Ok(()) => Ok(Vec::new()),
                Err(e) => Err(e),
            }
        },
        _ => {
            let name = match name_of_parameter(&command.parameter) {
                Ok(name) => name,
                Err(e) => {
                    return Err(e);
                },
            };
            match command.cmd {
                CommandType::mkdir => match fs.mkdir(name) {
                    Ok(()) => Ok(Vec::new()),
                    Err(e) => Err(e),
                },
                CommandType::create => match fs.create(name) {
                    Ok(()) => Ok(Vec::new()),
                    Err(e) => Err(e),
                },
                CommandType::rmdir => match fs.rmdir(name) {
                    Ok(()) => Ok(Vec::new()),
                    Err(e) => Err(e),
                },
                CommandType::rm => match fs.rm(name) {
                    Ok(()) => Ok(Vec::new()),
                    Err(e) => Err(e),
                },
                CommandType::cd => match fs.cd(name) {
                    Ok(()) => Ok(Vec::new()),
                    Err(e) => Err(e),
                },
                _ => fs.cat(name),
            }
        },
    }
}

} // verus!
