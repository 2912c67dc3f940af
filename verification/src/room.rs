//! When a run ends well: the model fits if its names and files fit their
//! fields, its directories can be numbered, and the FAT and the DAT together
//! leave the two regions apart.

use vstd::prelude::*;
use crate::entry::{entry_of, lemma_entry_size, name_fits};
use crate::error::KfsError;
use crate::fat::fat_bytes;
use crate::image::{image, report};
use crate::laws::{lemma_run_start_ok, run_start};
use crate::layout::{next_sid, page_base, sid_index, sid_page, spec_fat_start};
use crate::model::{
    dir_count, flatten, ids_in_order, lemma_dir_count_one, lemma_flat_from_ids, lemma_ids_rest,
    Item, Node,
};
use crate::order::child_order;
use crate::sections::{
    blocks_in, blocks_of, lemma_next_ordinal, lemma_put_blocks_ordinal, lemma_sid_at_ordinal,
    sid_ordinal,
};
use crate::store::{
    block_len, cursors_ok, lemma_next_sid, lemma_put_blocks_keeps, lemma_put_fat_keeps,
    lemma_put_item_keeps, no_room_to_roll, put_blocks, put_fat, put_item, put_section, store,
    State,
};
use crate::tree::lemma_dir_count_nonneg;

verus! {

/// Every name among `items` fits the fields that hold its length.
pub open spec fn names_fit(items: Seq<Item>) -> bool {
    forall|k: int| 0 <= k < items.len() ==> name_fits(#[trigger] items[k])
}

/// Every file among `items` has a length of at most 24 bits.
pub open spec fn sizes_fit(items: Seq<Item>) -> bool {
    forall|k: int|
        0 <= k < items.len() && (#[trigger] items[k]) is File ==> items[k]->data.len()
            <= 0xFF_FFFF
}

/// From state `st` there is room for `items`: when the blocks of all their
/// files have been given a section, the page after the page of the next free
/// section still begins at or below the FAT pointer, moved down by all their
/// entries.
pub open spec fn room_for(st: State, items: Seq<Item>) -> bool {
    page_base(5 + (sid_ordinal(st.section_id) + blocks_in(items)) / 63) <= st.fatptr
        - fat_bytes(items)
}

/// A model fits an image whose first FAT page is `fat_start`: its names and
/// files fit their fields, it has no more directories than numbers, and its
/// entries and the pages of its blocks, with one page more, fill no more than
/// the pages from page 4 to page `fat_start`.
pub open spec fn model_fits(fat_start: int, items: Seq<Item>) -> bool {
    &&& names_fit(items)
    &&& sizes_fit(items)
    &&& dir_count(items) <= 0xFFFF
    &&& fat_bytes(items) + page_base(5 + blocks_in(items) / 63) <= page_base(fat_start + 1)
}

/// Files take no negative number of sections.
pub proof fn lemma_blocks_in_nonneg(items: Seq<Item>)
    ensures
        blocks_in(items) >= 0,
    decreases items.len(),
{
    if items.len() > 0 {
        lemma_blocks_in_nonneg(items.skip(1));
    }
}

/// Entries take no negative number of bytes.
pub proof fn lemma_fat_bytes_nonneg(items: Seq<Item>)
    ensures
        fat_bytes(items) >= 0,
    decreases items.len(),
{
    if items.len() > 0 {
        lemma_fat_bytes_nonneg(items.skip(1));
    }
}

/// A section in range lies in the page that its place tells.
pub proof fn lemma_page_of_ordinal(sid: int)
    requires
        1 <= sid_index(sid) <= 0x3F,
        4 <= sid_page(sid),
    ensures
        sid_page(sid) == 4 + sid_ordinal(sid) / 63,
{
    lemma_sid_at_ordinal(sid);
}

/// Content is stored to its end exactly where the page after the page of the
/// section behind its last block begins at or below the FAT pointer.
pub proof fn lemma_put_blocks_room(st: State, data: Seq<u8>, off: int, prev: int)
    requires
        cursors_ok(st),
        0 <= off <= data.len(),
    ensures
        put_blocks(st, data, off, prev).err is None <==> page_base(
            5 + (sid_ordinal(st.section_id) + blocks_of(data.len() - off)) / 63,
        ) <= st.fatptr,
    decreases data.len() - off,
{
    let sid = st.section_id;
    lemma_page_of_ordinal(sid);
    if off < data.len() {
        lemma_next_sid(sid);
        lemma_next_ordinal(sid);
        let n = block_len(data.len() as int, off);
        assert(blocks_of(data.len() - off) == blocks_of(data.len() - off - n) + 1);
        if no_room_to_roll(st) {
            lemma_page_of_ordinal(next_sid(sid));
        } else {
            let st1 = put_section(st, data, off, prev);
            lemma_put_blocks_keeps(st, data, off, prev);
            lemma_put_blocks_room(st1, data, off + n, sid);
        }
    }
}

/// Storing items that are numbered in order ends well exactly where their names
/// and files fit, their directories can be numbered, and there is room for
/// them; and it ends with an error only where the error's own cause holds.
pub proof fn lemma_store_ends(st: State, items: Seq<Item>)
    requires
        cursors_ok(st),
        ids_in_order(items, st.parent_id),
    ensures
        store(st, items).err is None <==> names_fit(items) && sizes_fit(items) && st.parent_id
            + dir_count(items) <= 0xFFFF && room_for(st, items),
        store(st, items).err == Some(KfsError::NameTooLong) ==> !names_fit(items),
        store(st, items).err == Some(KfsError::FileTooLarge) ==> !sizes_fit(items),
        store(st, items).err == Some(KfsError::TooManyDirectories) ==> st.parent_id + dir_count(
            items,
        ) > 0xFFFF,
        store(st, items).err == Some(KfsError::OutOfSpace) ==> !room_for(st, items),
        store(st, items).err != Some(KfsError::InvalidLayout),
    decreases items.len(),
{
    lemma_page_of_ordinal(st.section_id);
    if items.len() > 0 {
        let first = items.first();
        let rest = items.skip(1);
        let e = entry_of(first, st.section_id);
        let mid = put_fat(st, e.reverse()).st;
        let o = put_item(st, first);
        lemma_entry_size(first, st.section_id);
        lemma_put_fat_keeps(st, e.reverse());
        lemma_put_item_keeps(st, first);
        lemma_ids_rest(items, st.parent_id);
        lemma_dir_count_one(first);
        lemma_dir_count_nonneg(rest);
        lemma_blocks_in_nonneg(rest);
        lemma_fat_bytes_nonneg(rest);
        assert(items[0] == first);
        assert forall|k: int| 0 <= k < rest.len() implies rest[k] == items[k + 1] by {}
        if let Item::File { data, .. } = first {
            lemma_put_blocks_room(mid, data, 0, 0xFFFF);
            lemma_put_blocks_keeps(mid, data, 0, 0xFFFF);
            if o.err is None {
                lemma_put_blocks_ordinal(mid, data, 0, 0xFFFF);
            }
        }
        if o.err is None {
            lemma_store_ends(o.st, rest);
            assert(room_for(o.st, rest) == room_for(st, items));
            assert(names_fit(rest) && name_fits(first) ==> names_fit(items)) by {
                assert forall|k: int| 0 <= k < items.len() && names_fit(rest) && name_fits(
                    first,
                ) implies name_fits(#[trigger] items[k]) by {
                    if k > 0 {
                        assert(rest[k - 1] == items[k]);
                    }
                }
            }
            assert(sizes_fit(rest) ==> sizes_fit(items)) by {
                assert forall|k: int|
                    0 <= k < items.len() && sizes_fit(rest) && (
                    #[trigger] items[k]) is File implies items[k]->data.len() <= 0xFF_FFFF by {
                    if k > 0 {
                        assert(rest[k - 1] == items[k]);
                    }
                }
            }
            assert(names_fit(items) ==> names_fit(rest)) by {
                assert forall|k: int| 0 <= k < rest.len() && names_fit(items) implies name_fits(
                    #[trigger] rest[k],
                ) by {
                    assert(rest[k] == items[k + 1]);
                }
            }
            assert(sizes_fit(items) ==> sizes_fit(rest)) by {
                assert forall|k: int|
                    0 <= k < rest.len() && sizes_fit(items) && (
                    #[trigger] rest[k]) is File implies rest[k]->data.len() <= 0xFF_FFFF by {
                    assert(rest[k] == items[k + 1]);
                }
            }
        }
    }
}

/// Whether `res` is explained by `items`: it is a summary where the model fits,
/// and else an error whose own cause holds.
pub open spec fn explained(res: Result<u16, KfsError>, fat_start: int, items: Seq<Item>) -> bool {
    match res {
        Ok(_) => model_fits(fat_start, items),
        Err(KfsError::NameTooLong) => !names_fit(items),
        Err(KfsError::FileTooLarge) => !sizes_fit(items),
        Err(KfsError::TooManyDirectories) => dir_count(items) > 0xFFFF,
        Err(KfsError::OutOfSpace) => fat_bytes(items) + page_base(5 + blocks_in(items) / 63)
            > page_base(fat_start + 1),
        Err(KfsError::InvalidLayout) => false,
    }
}

/// A run ends well exactly where the model fits the image; and it ends with an
/// error only where the error's own cause holds: a name that does not fit, a
/// file that is too large, more directories than numbers, or too little room
/// between the regions.
pub proof fn lemma_run_ends(rom: Seq<u8>, fat_start: int, model: Seq<Node>)
    requires
        spec_fat_start(rom.len() as int) == Some(fat_start),
    ensures
        image(rom, fat_start, model).err is None <==> model_fits(fat_start, flatten(model)),
        image(rom, fat_start, model).err == Some(KfsError::NameTooLong) ==> !names_fit(
            flatten(model),
        ),
        image(rom, fat_start, model).err == Some(KfsError::FileTooLarge) ==> !sizes_fit(
            flatten(model),
        ),
        image(rom, fat_start, model).err == Some(KfsError::TooManyDirectories) ==> dir_count(
            flatten(model),
        ) > 0xFFFF,
        image(rom, fat_start, model).err == Some(KfsError::OutOfSpace) ==> fat_bytes(
            flatten(model),
        ) + page_base(5 + blocks_in(flatten(model)) / 63) > page_base(fat_start + 1),
        image(rom, fat_start, model).err != Some(KfsError::InvalidLayout),
        explained(report(image(rom, fat_start, model), fat_start), fat_start, flatten(model)),
{
    let st0 = run_start(rom, fat_start);
    lemma_run_start_ok(rom, fat_start);
    lemma_flat_from_ids(model, child_order(model), 0, 0, 0);
    lemma_store_ends(st0, flatten(model));
}

} // verus!
