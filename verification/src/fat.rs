//! The FAT as a reader finds it: a parser for entries, and the proof that the
//! stored FAT reads back as the traversal sequence.

use vstd::prelude::*;
use crate::bytes::from_le16;
use crate::chain::{first_sid, lemma_take_step};
use crate::entry::{
    dir_entry, entry_len, entry_of, file_entry, lemma_entry_size, name_fits, symlink_entry,
};
use crate::frame::{
    keeps_settled, lemma_keeps_settled_trans, lemma_put_blocks_frame, lemma_store_frame, settled,
};
use crate::model::Item;
use crate::store::{
    cursors_ok, done, lemma_put_blocks_keeps, lemma_put_fat_keeps, lemma_put_item_keeps,
    lemma_store_one, put_fat, put_item, store, State,
};
use crate::tree::parent_of;

verus! {

/// What a reader learns from one FAT entry.
pub ghost enum Record {
    File { parent: int, length: int, sid: int, name: Seq<u8> },
    Dir { parent: int, id: int, name: Seq<u8> },
    Symlink { parent: int, name: Seq<u8>, target: Seq<u8> },
}

/// The record that the entry of `item` stands for; `sid` is the first section
/// of its content where it is a file.
pub open spec fn record_of(item: Item, sid: int) -> Record {
    match item {
        Item::File { parent, name, data } => Record::File {
            parent,
            length: data.len() as int,
            sid,
            name,
        },
        Item::Dir { parent, id, name } => Record::Dir { parent, id, name },
        Item::Symlink { parent, name, target } => Record::Symlink { parent, name, target },
    }
}

/// The value that three bytes hold, low byte first.
pub open spec fn from_le24(b0: u8, b1: u8, b2: u8) -> int {
    b0 as int + 256 * (b1 as int) + 65536 * (b2 as int)
}

/// Reads one whole entry, first byte first.
pub open spec fn parse_entry(e: Seq<u8>) -> Option<Record> {
    if e.len() < 3 || e.len() != from_le16(e[1], e[2]) + 3 {
        None
    } else {
        let elen = from_le16(e[1], e[2]);
        let end = e.len() as int;
        let parent = from_le16(e[3], e[4]);
        if e[0] == 0x7Fu8 && elen >= 9 {
            Some(
                Record::File {
                    parent,
                    length: from_le24(e[6], e[7], e[8]),
                    sid: from_le16(e[9], e[10]),
                    name: e.subrange(11, end - 1),
                },
            )
        } else if e[0] == 0xBFu8 && elen >= 6 {
            Some(Record::Dir { parent, id: from_le16(e[5], e[6]), name: e.subrange(8, end - 1) })
        } else if e[0] == 0xDFu8 && elen >= 5 && 1 <= e[5] && 5 + e[5] <= end - 2 {
            Some(
                Record::Symlink {
                    parent,
                    name: e.subrange(6, 5 + e[5]),
                    target: e.subrange(5 + e[5], end - 2),
                },
            )
        } else {
            None
        }
    }
}

/// Reads a FAT from its first entry on: `stream` is the FAT region from its top
/// down, so that every entry stands first byte first.
pub open spec fn parse_fat(stream: Seq<u8>) -> Option<Seq<Record>>
    decreases stream.len(),
{
    if stream.len() == 0 {
        Some(Seq::empty())
    } else if stream.len() < 3 || stream.len() < from_le16(stream[1], stream[2]) + 3 {
        None
    } else {
        let size = from_le16(stream[1], stream[2]) + 3;
        match (parse_entry(stream.take(size)), parse_fat(stream.skip(size))) {
            (Some(r), Some(rs)) => Some(seq![r] + rs),
            _ => None,
        }
    }
}

/// The entries of `items` in a row, each first byte first, as they are made
/// when the items are stored from state `st`.
pub open spec fn fat_stream(st: State, items: Seq<Item>) -> Seq<u8>
    decreases items.len(),
{
    if items.len() == 0 {
        Seq::empty()
    } else {
        entry_of(items.first(), st.section_id) + fat_stream(
            put_item(st, items.first()).st,
            items.skip(1),
        )
    }
}

/// The records of `items`, as they are made when the items are stored from
/// state `st`.
pub open spec fn records(st: State, items: Seq<Item>) -> Seq<Record>
    decreases items.len(),
{
    if items.len() == 0 {
        Seq::empty()
    } else {
        seq![record_of(items.first(), st.section_id)] + records(
            put_item(st, items.first()).st,
            items.skip(1),
        )
    }
}

/// The FAT pointer before item `k` of `items` is written when they are stored
/// from state `st`: the entry of item `k` ends just below it.
pub open spec fn fat_top(st: State, items: Seq<Item>, k: int) -> int {
    store(st, items.take(k)).st.fatptr
}

/// Whether an item can be read back from its entry: its names fit, and its
/// numbers fit their fields.
pub open spec fn readable(item: Item) -> bool {
    &&& name_fits(item)
    &&& 0 <= parent_of(item) <= 0xFFFF
    &&& item matches Item::Dir { id, .. } ==> 0 <= id <= 0xFFFF
    &&& item matches Item::File { data, .. } ==> data.len() <= 0xFF_FFFF
}

/// Reading the entry of a file gives the file's record.
proof fn lemma_parse_file(parent: int, name: Seq<u8>, length: int, sid: int)
    requires
        name.len() + 9 <= 0xFFFF,
        0 <= parent <= 0xFFFF,
        0 <= length <= 0xFF_FFFF,
        0 <= sid <= 0xFFFF,
    ensures
        parse_entry(file_entry(parent, length, sid, name)) == Some(
            Record::File { parent, length, sid, name },
        ),
        from_le16(
            file_entry(parent, length, sid, name)[1],
            file_entry(parent, length, sid, name)[2],
        ) == name.len() + 9,
{
    let e = file_entry(parent, length, sid, name);
    let n = name.len() as int;
    let head = seq![
        0x7Fu8,
        ((n + 9) % 256) as u8,
        ((n + 9) / 256 % 256) as u8,
        (parent % 256) as u8,
        (parent / 256 % 256) as u8,
        0xFFu8,
        (length % 256) as u8,
        (length / 256 % 256) as u8,
        (length / 65536 % 256) as u8,
        (sid % 256) as u8,
        (sid / 256 % 256) as u8,
    ];
    assert(e =~= head + name + seq![0u8]);
    assert(e.len() == n + 12);
    assert(e[1] == head[1] && e[2] == head[2] && e[3] == head[3] && e[4] == head[4]);
    assert(e[6] == head[6] && e[7] == head[7] && e[8] == head[8]);
    assert(e[9] == head[9] && e[10] == head[10] && e[0] == head[0]);
    assert(from_le16(e[1], e[2]) == n + 9);
    assert(from_le16(e[3], e[4]) == parent);
    assert(from_le24(e[6], e[7], e[8]) == length);
    assert(from_le16(e[9], e[10]) == sid);
    assert(e.subrange(11, n + 11) =~= name);
}

/// Reading the entry of a directory gives the directory's record.
proof fn lemma_parse_dir(parent: int, id: int, name: Seq<u8>)
    requires
        name.len() + 6 <= 0xFFFF,
        0 <= parent <= 0xFFFF,
        0 <= id <= 0xFFFF,
    ensures
        parse_entry(dir_entry(parent, id, name)) == Some(Record::Dir { parent, id, name }),
        from_le16(dir_entry(parent, id, name)[1], dir_entry(parent, id, name)[2]) == name.len()
            + 6,
{
    let e = dir_entry(parent, id, name);
    let n = name.len() as int;
    let head = seq![
        0xBFu8,
        ((n + 6) % 256) as u8,
        ((n + 6) / 256 % 256) as u8,
        (parent % 256) as u8,
        (parent / 256 % 256) as u8,
        (id % 256) as u8,
        (id / 256 % 256) as u8,
        0xFFu8,
    ];
    assert(e =~= head + name + seq![0u8]);
    assert(e.len() == n + 9);
    assert(e[1] == head[1] && e[2] == head[2] && e[3] == head[3] && e[4] == head[4]);
    assert(e[5] == head[5] && e[6] == head[6] && e[0] == head[0]);
    assert(from_le16(e[1], e[2]) == n + 6);
    assert(from_le16(e[3], e[4]) == parent);
    assert(from_le16(e[5], e[6]) == id);
    assert(e.subrange(8, n + 8) =~= name);
}

/// Reading the entry of a symbolic link gives the link's record.
proof fn lemma_parse_symlink(parent: int, name: Seq<u8>, target: Seq<u8>)
    requires
        name.len() + target.len() + 5 <= 0xFFFF,
        name.len() + 1 <= 0xFF,
        0 <= parent <= 0xFFFF,
    ensures
        parse_entry(symlink_entry(parent, name, target)) == Some(
            Record::Symlink { parent, name, target },
        ),
        from_le16(symlink_entry(parent, name, target)[1], symlink_entry(parent, name, target)[2])
            == name.len() + target.len() + 5,
{
    let e = symlink_entry(parent, name, target);
    let n = name.len() as int;
    let t = target.len() as int;
    let head = seq![
        0xDFu8,
        ((n + t + 5) % 256) as u8,
        ((n + t + 5) / 256 % 256) as u8,
        (parent % 256) as u8,
        (parent / 256 % 256) as u8,
        ((n + 1) % 256) as u8,
    ];
    assert(e =~= head + name + target + seq![0u8, 0u8]);
    assert(e.len() == n + t + 8);
    assert(e[1] == head[1] && e[2] == head[2] && e[3] == head[3] && e[4] == head[4]);
    assert(e[5] == head[5] && e[0] == head[0]);
    assert(from_le16(e[1], e[2]) == n + t + 5);
    assert(from_le16(e[3], e[4]) == parent);
    assert(e[5] == n + 1);
    assert(e.subrange(6, n + 6) =~= name);
    assert(e.subrange(n + 6, n + t + 6) =~= target);
}

/// Reading the entry of an item gives the item's record.
pub proof fn lemma_parse_entry(item: Item, sid: int)
    requires
        readable(item),
        0 <= sid <= 0xFFFF,
    ensures
        parse_entry(entry_of(item, sid)) == Some(record_of(item, sid)),
        entry_of(item, sid).len() == entry_len(item) + 3,
        entry_of(item, sid).len() >= 3,
        from_le16(entry_of(item, sid)[1], entry_of(item, sid)[2]) == entry_len(item),
{
    match item {
        Item::File { parent, name, data } => {
            lemma_parse_file(parent, name, data.len() as int, sid);
        },
        Item::Dir { parent, id, name } => {
            lemma_parse_dir(parent, id, name);
        },
        Item::Symlink { parent, name, target } => {
            lemma_parse_symlink(parent, name, target);
        },
    }
}

/// Reading the entries of stored items, from the first on, gives their records.
pub proof fn lemma_parse_stream(st: State, items: Seq<Item>)
    requires
        cursors_ok(st),
        store(st, items).err is None,
        forall|k: int| 0 <= k < items.len() ==> 0 <= parent_of(#[trigger] items[k]) <= 0xFFFF,
    ensures
        parse_fat(fat_stream(st, items)) == Some(records(st, items)),
    decreases items.len(),
{
    if items.len() > 0 {
        let first = items.first();
        let rest = items.skip(1);
        let o = put_item(st, first);
        lemma_put_item_keeps(st, first);
        lemma_parse_entry(first, st.section_id);
        lemma_parse_stream(o.st, rest);
        let e = entry_of(first, st.section_id);
        let tail = fat_stream(o.st, rest);
        let stream = e + tail;
        assert(stream.take(e.len() as int) =~= e);
        assert(stream.skip(e.len() as int) =~= tail);
    }
}

/// Once an item has been written, its entry stands reversed just below the
/// place where the FAT pointer was, in every later image that kept the settled
/// bytes.
pub proof fn lemma_put_item_fat(st: State, item: Item, later: State)
    requires
        cursors_ok(st),
        put_item(st, item).err is None,
        keeps_settled(put_item(st, item).st, later),
    ensures
        put_item(st, item).st.fatptr == st.fatptr - entry_of(item, st.section_id).len(),
        later.rom.subrange(st.fatptr - entry_of(item, st.section_id).len(), st.fatptr)
            == entry_of(item, st.section_id).reverse(),
{
    let e = entry_of(item, st.section_id);
    let stored = e.reverse();
    let mid = put_fat(st, stored).st;
    let after = put_item(st, item).st;
    lemma_put_fat_keeps(st, stored);
    match item {
        Item::File { data, .. } => {
            lemma_put_blocks_keeps(mid, data, 0, 0xFFFF);
            lemma_put_blocks_frame(mid, data, 0, 0xFFFF);
        },
        _ => {},
    }
    lemma_keeps_settled_trans(mid, after, later);
}

/// Whether the entry of item `k` stands reversed in `rom` between the FAT
/// pointer after the item and the FAT pointer before it.
pub open spec fn entry_stands(rom: Seq<u8>, st: State, items: Seq<Item>, k: int) -> bool {
    &&& fat_top(st, items, k + 1) == fat_top(st, items, k) - entry_len(items[k]) - 3
    &&& rom.subrange(fat_top(st, items, k + 1), fat_top(st, items, k)) == entry_of(
        items[k],
        first_sid(st, items, k),
    ).reverse()
}

/// Before the first item the writer stands where it began, and after it where
/// the first item left it.
proof fn lemma_take_first(st: State, items: Seq<Item>)
    requires
        0 < items.len(),
        put_item(st, items.first()).err is None,
    ensures
        store(st, items.take(0)) == done(st),
        store(st, items.take(1)) == put_item(st, items.first()),
{
    assert(items.take(1) =~= seq![items.first()]);
    lemma_store_one(st, items.first());
}

/// The first of the stored items has its entry just below the place where the
/// FAT pointer was.
proof fn lemma_store_fat_first(st: State, items: Seq<Item>)
    requires
        cursors_ok(st),
        store(st, items).err is None,
        0 < items.len(),
    ensures
        entry_stands(store(st, items).st.rom, st, items, 0),
        store(st, items).st.fatptr <= fat_top(st, items, 1),
{
    let first = items.first();
    let o = put_item(st, first);
    lemma_put_item_keeps(st, first);
    lemma_store_frame(o.st, items.skip(1));
    lemma_take_first(st, items);
    lemma_put_item_fat(st, first, store(st, items).st);
}

/// After the items have been stored, the entry of each stands reversed in the
/// image, just below the entry of the item before it, and the FAT pointer is at
/// or below all of them.
pub proof fn lemma_store_fat(st: State, items: Seq<Item>, k: int)
    requires
        cursors_ok(st),
        store(st, items).err is None,
        0 <= k < items.len(),
    ensures
        entry_stands(store(st, items).st.rom, st, items, k),
        fat_top(st, items, k + 1) < fat_top(st, items, k),
        store(st, items).st.fatptr <= fat_top(st, items, k + 1),
    decreases items.len(),
{
    if k == 0 {
        lemma_store_fat_first(st, items);
    } else {
        let first = items.first();
        let rest = items.skip(1);
        let o = put_item(st, first);
        lemma_put_item_keeps(st, first);
        lemma_store_fat(o.st, rest, k - 1);
        assert(fat_top(st, items, k) == fat_top(o.st, rest, k - 1)) by {
            lemma_take_step(st, items, k);
        }
        assert(first_sid(st, items, k) == first_sid(o.st, rest, k - 1)) by {
            lemma_take_step(st, items, k);
        }
        assert(fat_top(st, items, k + 1) == fat_top(o.st, rest, k)) by {
            lemma_take_step(st, items, k + 1);
        }
    }
}

/// After the items have been stored, the bytes from the FAT pointer up to the
/// place where it was are the entries of the items in a row, read from the top
/// down.
pub proof fn lemma_store_fat_region(st: State, items: Seq<Item>)
    requires
        cursors_ok(st),
        store(st, items).err is None,
    ensures
        store(st, items).st.fatptr == st.fatptr - fat_stream(st, items).len(),
        store(st, items).st.rom.subrange(store(st, items).st.fatptr, st.fatptr).reverse()
            == fat_stream(st, items),
    decreases items.len(),
{
    let end = store(st, items).st;
    if items.len() == 0 {
    } else {
        let first = items.first();
        let rest = items.skip(1);
        let o = put_item(st, first);
        lemma_put_item_keeps(st, first);
        lemma_store_frame(o.st, rest);
        lemma_put_item_fat(st, first, end);
        lemma_store_fat_region(o.st, rest);
        let e = entry_of(first, st.section_id);
        let low = end.rom.subrange(end.fatptr, o.st.fatptr);
        let high = end.rom.subrange(o.st.fatptr, st.fatptr);
        assert((low + high).reverse() =~= high.reverse() + low.reverse());
        assert(e.reverse().reverse() =~= e);
    }
}

/// The records of stored items stand in the order of the items, and the record
/// of a file names the section that was free when the file was written.
pub proof fn lemma_records_index(st: State, items: Seq<Item>, k: int)
    requires
        store(st, items).err is None,
        0 <= k < items.len(),
    ensures
        records(st, items).len() == items.len(),
        records(st, items)[k] == record_of(items[k], first_sid(st, items, k)),
    decreases items.len(),
{
    let first = items.first();
    let rest = items.skip(1);
    let o = put_item(st, first);
    lemma_records_len(o.st, rest);
    if k == 0 {
        assert(store(st, items.take(0)) == done(st));
    } else {
        lemma_records_index(o.st, rest, k - 1);
        assert(first_sid(st, items, k) == first_sid(o.st, rest, k - 1)) by {
            lemma_take_step(st, items, k);
        }
    }
}

/// There is one record for each item.
pub proof fn lemma_records_len(st: State, items: Seq<Item>)
    ensures
        records(st, items).len() == items.len(),
    decreases items.len(),
{
    if items.len() > 0 {
        lemma_records_len(put_item(st, items.first()).st, items.skip(1));
    }
}

/// Number of bytes that the entries of `items` take together.
pub open spec fn fat_bytes(items: Seq<Item>) -> int
    decreases items.len(),
{
    if items.len() == 0 {
        0
    } else {
        entry_len(items.first()) + 3 + fat_bytes(items.skip(1))
    }
}

/// The entries in a row are as long as the entries together.
pub proof fn lemma_stream_len(st: State, items: Seq<Item>)
    ensures
        fat_stream(st, items).len() == fat_bytes(items),
    decreases items.len(),
{
    if items.len() > 0 {
        lemma_entry_size(items.first(), st.section_id);
        lemma_stream_len(put_item(st, items.first()).st, items.skip(1));
    }
}

} // verus!
