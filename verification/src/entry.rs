//! FAT entries: their layout, first byte first, and the functions that build
//! them.

use vstd::prelude::*;
use crate::bytes::{append_bytes, le16, le24, push_le16, push_le24};
use crate::layout::{KFS_DIR_ID, KFS_FILE_ID, KFS_SYM_ID};
use crate::model::Item;

verus! {

/// The FAT entry of a regular file, first byte first: tag, entry length, parent
/// directory, flags, file length, first section, name, and a closing zero.
pub open spec fn file_entry(parent: int, length: int, sid: int, name: Seq<u8>) -> Seq<u8> {
    seq![0x7Fu8] + le16(name.len() + 9int) + le16(parent) + seq![0xFFu8] + le24(length) + le16(sid)
        + name + seq![0u8]
}

/// The FAT entry of a directory, first byte first: tag, entry length, parent
/// directory, own number, flags, name, and a closing zero.
pub open spec fn dir_entry(parent: int, id: int, name: Seq<u8>) -> Seq<u8> {
    seq![0xBFu8] + le16(name.len() + 6int) + le16(parent) + le16(id) + seq![0xFFu8] + name
        + seq![0u8]
}

/// The FAT entry of a symbolic link, first byte first: tag, entry length,
/// parent directory, name length plus one, name, target, and two closing zeros.
pub open spec fn symlink_entry(parent: int, name: Seq<u8>, target: Seq<u8>) -> Seq<u8> {
    seq![0xDFu8] + le16(name.len() + target.len() + 5int) + le16(parent) + seq![
        ((name.len() + 1) % 256) as u8,
    ] + name + target + seq![0u8, 0u8]
}

/// The entry length that an item's FAT entry declares: the bytes that follow
/// the tag and the length field.
pub open spec fn entry_len(item: Item) -> int {
    match item {
        Item::File { name, .. } => name.len() + 9int,
        Item::Dir { name, .. } => name.len() + 6int,
        Item::Symlink { name, target, .. } => name.len() + target.len() + 5int,
    }
}

/// Whether an item's names fit the fields that hold their lengths.
pub open spec fn name_fits(item: Item) -> bool {
    &&& entry_len(item) <= 0xFFFF
    &&& item matches Item::Symlink { name, .. } ==> name.len() + 1 <= 0xFF
}

/// The FAT entry of `item`, first byte first; `sid` is the first section of its
/// content where it is a file.
pub open spec fn entry_of(item: Item, sid: int) -> Seq<u8> {
    match item {
        Item::File { parent, name, data } => file_entry(parent, data.len() as int, sid, name),
        Item::Dir { parent, id, name } => dir_entry(parent, id, name),
        Item::Symlink { parent, name, target } => symlink_entry(parent, name, target),
    }
}

/// Every entry takes three bytes more than the length it declares.
pub proof fn lemma_entry_size(item: Item, sid: int)
    ensures
        entry_of(item, sid).len() == entry_len(item) + 3,
{
}

/// Builds the FAT entry of a regular file.
pub fn build_file_entry(parent: u16, length: u32, sid: u16, name: &Vec<u8>) -> (entry: Vec<u8>)
    requires
        name@.len() + 9 <= 0xFFFF,
    ensures
        entry@ == file_entry(parent as int, length as int, sid as int, name@),
{
    let elen: u16 = (name.len() + 9) as u16;
    let mut entry: Vec<u8> = Vec::new();
    entry.push(KFS_FILE_ID);
    push_le16(&mut entry, elen);
    push_le16(&mut entry, parent);
    entry.push(0xFF);
    push_le24(&mut entry, length);
    push_le16(&mut entry, sid);
    append_bytes(&mut entry, name);
    entry.push(0);
    entry
}

/// Builds the FAT entry of a directory.
pub fn build_dir_entry(parent: u16, id: u16, name: &Vec<u8>) -> (entry: Vec<u8>)
    requires
        name@.len() + 6 <= 0xFFFF,
    ensures
        entry@ == dir_entry(parent as int, id as int, name@),
{
    let elen: u16 = (name.len() + 6) as u16;
    let mut entry: Vec<u8> = Vec::new();
    entry.push(KFS_DIR_ID);
    push_le16(&mut entry, elen);
    push_le16(&mut entry, parent);
    push_le16(&mut entry, id);
    entry.push(0xFF);
    append_bytes(&mut entry, name);
    entry.push(0);
    entry
}

/// Builds the FAT entry of a symbolic link.
pub fn build_symlink_entry(parent: u16, name: &Vec<u8>, target: &Vec<u8>) -> (entry: Vec<u8>)
    requires
        name@.len() + target@.len() + 5 <= 0xFFFF,
        name@.len() + 1 <= 0xFF,
    ensures
        entry@ == symlink_entry(parent as int, name@, target@),
{
    let elen: u16 = (name.len() + target.len() + 5) as u16;
    let mut entry: Vec<u8> = Vec::new();
    entry.push(KFS_SYM_ID);
    push_le16(&mut entry, elen);
    push_le16(&mut entry, parent);
    entry.push((name.len() + 1) as u8);
    append_bytes(&mut entry, name);
    append_bytes(&mut entry, target);
    entry.push(0);
    entry.push(0);
    entry
}

} // verus!
