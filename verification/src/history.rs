//! That a file system which starts out empty and is changed by commands
//! only is consistent at every moment.

use vstd::prelude::*;
use crate::command::{padded_name, Command, CommandType};
use crate::server::{append_data, append_name, command_result, names_something};
use crate::virtual_file_sys::appended::{
    growth_of, lemma_append_image, lemma_append_sound, with_data_blocks,
};
use crate::virtual_file_sys::block::MAX_FNAME_SIZE;
use crate::virtual_file_sys::consistency::{
    consistent, initial_layout, layout_ok, lemma_formatted_consistent, lemma_home_sound, state_ok,
    Layout, Role,
};
use crate::virtual_file_sys::file_sys::{
    append_result, cd_result, formatted_image, new_entry_result, resolve_file, rm_result,
    rmdir_result, FileSysView,
};
use crate::virtual_file_sys::inode::{dir_at, HOME_DIR_ID};
use crate::virtual_file_sys::preserve::{
    lemma_cd_sound, lemma_new_entry_sound, lemma_rm_sound, lemma_rmdir_sound, new_block_of,
    with_block, with_block_freed, with_file_freed,
};
use crate::virtual_file_sys::bitmap::first_free;

verus! {

/// The state of a file system that started out empty, with the home
/// directory as the current one, and has carried out `commands` in turn.
pub open spec fn after_commands(commands: Seq<Command>) -> FileSysView
    decreases commands.len(),
{
    if commands.len() == 0 {
        FileSysView { image: formatted_image(), cwd: HOME_DIR_ID as usize }
    } else {
        command_result(after_commands(commands.drop_last()), commands.last()).0
    }
}

/// A command leads from a sound state to a sound state.
pub proof fn lemma_command_sound(s: FileSysView, l: Layout, command: Command) -> (after: Layout)
    requires
        state_ok(s, l),
    ensures
        state_ok(command_result(s, command).0, after),
{
    let parameter = command.parameter@;
    let name = padded_name(parameter);
    match command.cmd {
        CommandType::ls => l,
        CommandType::cat => l,
        CommandType::home => {
            lemma_home_sound(s, l);
            l
        },
        CommandType::append => {
            let file = padded_name(append_name(parameter));
            let data = append_data(parameter);
            if names_something(append_name(parameter)) && append_result(s, file, data).1 is None {
                lemma_append_sound(s, l, file, data);
                with_data_blocks(l, growth_of(s, file, data).ids, growth_of(s, file, data).id)
            } else {
                if names_something(append_name(parameter)) {
                    lemma_append_image(s, l, file, data);
                }
                l
            }
        },
        CommandType::mkdir => {
            if names_something(parameter) && new_entry_result(s, name, new_block_of(Role::Dir)).1 is None {
                lemma_new_entry_sound(s, l, name, Role::Dir);
                with_block(l, first_free(s.image[0]), Role::Dir, s.cwd as int)
            } else {
                if names_something(parameter) {
                    lemma_new_entry_sound(s, l, name, Role::Dir);
                }
                l
            }
        },
        CommandType::create => {
            if names_something(parameter) && new_entry_result(s, name, new_block_of(Role::File)).1 is None {
                lemma_new_entry_sound(s, l, name, Role::File);
                with_block(l, first_free(s.image[0]), Role::File, s.cwd as int)
            } else {
                if names_something(parameter) {
                    lemma_new_entry_sound(s, l, name, Role::File);
                }
                l
            }
        },
        CommandType::rmdir => {
            if names_something(parameter) && rmdir_result(s, name).1 is None {
                lemma_rmdir_sound(s, l, name);
                with_block_freed(
                    l,
                    crate::virtual_file_sys::file_sys::entry_named(
                        dir_at(s.image, s.cwd as int).dir_entries,
                        name,
                    ).block_num as int,
                )
            } else {
                if names_something(parameter) {
                    lemma_rmdir_sound(s, l, name);
                }
                l
            }
        },
        CommandType::rm => {
            if names_something(parameter) && resolve_file(s, name) is Ok {
                lemma_rm_sound(s, l, name);
                with_file_freed(l, resolve_file(s, name)->Ok_0 as int)
            } else {
                if names_something(parameter) {
                    lemma_rm_sound(s, l, name);
                }
                l
            }
        },
        CommandType::cd => {
            if names_something(parameter) {
                lemma_cd_sound(s, l, name);
            }
            l
        },
    }
}

/// A file system that started out empty and has carried out commands is in
/// a sound state, whatever the commands were and however they ended; so its
/// image is consistent.
pub proof fn lemma_always_sound(commands: Seq<Command>) -> (l: Layout)
    ensures
        state_ok(after_commands(commands), l),
        consistent(after_commands(commands).image),
    decreases commands.len(),
{
    if commands.len() == 0 {
        lemma_formatted_consistent();
        initial_layout()
    } else {
        let before = lemma_always_sound(commands.drop_last());
        let l = lemma_command_sound(after_commands(commands.drop_last()), before, commands.last());
        assert(layout_ok(after_commands(commands).image, l));
        l
    }
}

} // verus!
