//! Which bytes a step can change: the bytes out of the writer's reach stay as
//! they are, and the bytes still within its reach afterwards were not
//! written.

use vstd::prelude::*;
use crate::entry::entry_of;
use crate::layout::{
    block_addr, header_addr, next_sid, page_base, rolls_over, sid_index, sid_page, slot_of,
};
use crate::model::Item;
use crate::store::{
    block_len, cursors_ok, lemma_next_sid, lemma_put_blocks_keeps, lemma_put_fat_keeps,
    lemma_put_item_keeps, no_room_to_roll, put_blocks, put_fat, put_item, put_section, store,
    State,
};

verus! {

/// Whether offset `a` is out of the writer's reach in state `st`: it belongs to
/// a slot below the next free section, or it lies at or above the FAT pointer.
pub open spec fn settled(st: State, a: int) -> bool {
    slot_of(a) < st.section_id || a >= st.fatptr
}

/// Whether the step from `before` to `after` only moved the cursors towards
/// each other and left every settled byte as it was.
pub open spec fn keeps_settled(before: State, after: State) -> bool {
    &&& after.rom.len() == before.rom.len()
    &&& after.section_id >= before.section_id
    &&& after.fatptr <= before.fatptr
    &&& forall|a: int|
        0 <= a < before.rom.len() && settled(before, a) ==> #[trigger] after.rom[a]
            == before.rom[a]
}

/// The four bytes of a section's header belong to the section's slot.
pub proof fn lemma_slot_of_header(sid: int, d: int)
    requires
        0 <= sid,
        1 <= sid_index(sid) <= 0x3F,
        0 <= d < 4,
    ensures
        slot_of(header_addr(sid) + d) == sid,
        page_base(sid_page(sid)) <= header_addr(sid) + d < page_base(sid_page(sid) + 1),
{
    let p = sid / 256;
    let i = sid % 256;
    let a = p * 16384 + i * 4 + d;
    assert(a / 16384 == p && a % 16384 == i * 4 + d) by (nonlinear_arith)
        requires
            a == p * 16384 + i * 4 + d,
            0 <= i * 4 + d < 16384,
    ;
}

/// The 256 bytes of a section's block belong to the section's slot.
pub proof fn lemma_slot_of_block(sid: int, d: int)
    requires
        0 <= sid,
        1 <= sid_index(sid) <= 0x3F,
        0 <= d < 256,
    ensures
        slot_of(block_addr(sid) + d) == sid,
        page_base(sid_page(sid)) <= block_addr(sid) + d < page_base(sid_page(sid) + 1),
{
    let p = sid / 256;
    let i = sid % 256;
    let a = p * 16384 + i * 256 + d;
    assert(a / 16384 == p && a % 16384 == i * 256 + d) by (nonlinear_arith)
        requires
            a == p * 16384 + i * 256 + d,
            0 <= i * 256 + d < 16384,
    ;
}

/// The first four bytes of a page belong to the slot before the page's first
/// section.
pub proof fn lemma_slot_of_magic(page: int, d: int)
    requires
        0 <= page,
        0 <= d < 4,
    ensures
        slot_of(page_base(page) + d) == page * 256,
{
    let a = page * 16384 + d;
    assert(a / 16384 == page && a % 16384 == d) by (nonlinear_arith)
        requires
            a == page * 16384 + d,
            0 <= d < 16384,
    ;
}

/// A byte at or above the start of a page belongs to no slot of a lower page.
pub proof fn lemma_slot_above(a: int, page: int)
    requires
        0 <= page,
        page_base(page) <= a,
    ensures
        slot_of(a) >= page * 256,
{
    let q = a / 16384;
    assert(q >= page) by (nonlinear_arith)
        requires
            q == a / 16384,
            page * 16384 <= a,
    ;
}

/// A byte below the start of a page belongs to a slot of a lower page.
pub proof fn lemma_slot_below(a: int, page: int)
    requires
        0 <= a < page_base(page),
    ensures
        slot_of(a) < page * 256,
{
    let q = a / 16384;
    assert(q < page) by (nonlinear_arith)
        requires
            q == a / 16384,
            0 <= a < page * 16384,
    ;
}

/// Steps that keep the settled bytes do so in a row.
pub proof fn lemma_keeps_settled_trans(a: State, b: State, c: State)
    requires
        keeps_settled(a, b),
        keeps_settled(b, c),
    ensures
        keeps_settled(a, c),
{
}

/// Appending to the FAT leaves every settled byte as it was.
pub proof fn lemma_put_fat_frame(st: State, stored: Seq<u8>)
    requires
        cursors_ok(st),
    ensures
        keeps_settled(st, put_fat(st, stored).st),
{
    let after = put_fat(st, stored).st;
    assert forall|a: int| 0 <= a < st.rom.len() && settled(st, a) implies #[trigger] after.rom[a]
        == st.rom[a] by {
        if put_fat(st, stored).err is None && st.fatptr - stored.len() <= a < st.fatptr {
            lemma_slot_above(a, sid_page(st.section_id) + 1);
        }
    }
}

/// Storing content leaves every settled byte as it was.
pub proof fn lemma_put_blocks_frame(st: State, data: Seq<u8>, off: int, prev: int)
    requires
        cursors_ok(st),
    ensures
        keeps_settled(st, put_blocks(st, data, off, prev).st),
    decreases data.len() - off,
{
    if 0 <= off < data.len() {
        let sid = st.section_id;
        let next = next_sid(sid);
        lemma_next_sid(sid);
        if !no_room_to_roll(st) {
            let st1 = put_section(st, data, off, prev);
            let n = block_len(data.len() as int, off);
            assert forall|a: int|
                0 <= a < st.rom.len() && settled(st, a) implies #[trigger] st1.rom[a]
                == st.rom[a] by {
                if block_addr(sid) <= a < block_addr(sid) + n {
                    lemma_slot_of_block(sid, a - block_addr(sid));
                }
                if header_addr(sid) <= a < header_addr(sid) + 4 {
                    lemma_slot_of_header(sid, a - header_addr(sid));
                }
                if rolls_over(sid) && page_base(sid_page(next)) <= a < page_base(sid_page(next))
                    + 4 {
                    lemma_slot_of_magic(sid_page(next), a - page_base(sid_page(next)));
                }
            }
            lemma_put_blocks_keeps(st, data, off, prev);
            lemma_put_blocks_frame(st1, data, off + n, sid);
            lemma_keeps_settled_trans(st, st1, put_blocks(st1, data, off + n, sid).st);
        }
    }
}

/// Writing one item leaves every settled byte as it was.
pub proof fn lemma_put_item_frame(st: State, item: Item)
    requires
        cursors_ok(st),
    ensures
        keeps_settled(st, put_item(st, item).st),
{
    let stored = entry_of(item, st.section_id).reverse();
    lemma_put_fat_frame(st, stored);
    lemma_put_fat_keeps(st, stored);
    let mid = put_fat(st, stored).st;
    match item {
        Item::File { data, .. } => {
            lemma_put_blocks_frame(mid, data, 0, 0xFFFF);
            lemma_keeps_settled_trans(st, mid, put_blocks(mid, data, 0, 0xFFFF).st);
        },
        Item::Dir { id, .. } => {
            let after = State { parent_id: id, ..mid };
            lemma_keeps_settled_trans(st, mid, after);
        },
        _ => {},
    }
}

/// Storing a sequence of items keeps the cursors in range and leaves every
/// settled byte as it was, whether it ends well or not.
pub proof fn lemma_store_frame(st: State, items: Seq<Item>)
    requires
        cursors_ok(st),
    ensures
        cursors_ok(store(st, items).st),
        keeps_settled(st, store(st, items).st),
    decreases items.len(),
{
    if items.len() > 0 {
        let o = put_item(st, items.first());
        lemma_put_item_frame(st, items.first());
        lemma_put_item_keeps(st, items.first());
        if o.err is None {
            lemma_store_frame(o.st, items.skip(1));
            lemma_keeps_settled_trans(st, o.st, store(o.st, items.skip(1)).st);
        }
    }
}

/// Whether the step from `before` to `after` only moved the cursors towards
/// each other and wrote no byte that is still within the writer's reach
/// afterwards.
pub open spec fn keeps_free(before: State, after: State) -> bool {
    &&& after.rom.len() == before.rom.len()
    &&& after.section_id >= before.section_id
    &&& after.fatptr <= before.fatptr
    &&& forall|a: int|
        0 <= a < before.rom.len() && !settled(after, a) ==> #[trigger] after.rom[a]
            == before.rom[a]
}

/// Steps that write nothing within reach do so in a row.
pub proof fn lemma_keeps_free_trans(a: State, b: State, c: State)
    requires
        keeps_free(a, b),
        keeps_free(b, c),
    ensures
        keeps_free(a, c),
{
}

/// Storing content writes only bytes that are settled afterwards.
pub proof fn lemma_put_blocks_free(st: State, data: Seq<u8>, off: int, prev: int)
    requires
        cursors_ok(st),
    ensures
        keeps_free(st, put_blocks(st, data, off, prev).st),
    decreases data.len() - off,
{
    if 0 <= off < data.len() {
        let sid = st.section_id;
        let next = next_sid(sid);
        lemma_next_sid(sid);
        if !no_room_to_roll(st) {
            let st1 = put_section(st, data, off, prev);
            let n = block_len(data.len() as int, off);
            assert forall|a: int|
                0 <= a < st.rom.len() && !settled(st1, a) implies #[trigger] st1.rom[a]
                == st.rom[a] by {
                if block_addr(sid) <= a < block_addr(sid) + n {
                    lemma_slot_of_block(sid, a - block_addr(sid));
                }
                if header_addr(sid) <= a < header_addr(sid) + 4 {
                    lemma_slot_of_header(sid, a - header_addr(sid));
                }
                if rolls_over(sid) && page_base(sid_page(next)) <= a < page_base(sid_page(next))
                    + 4 {
                    lemma_slot_of_magic(sid_page(next), a - page_base(sid_page(next)));
                }
            }
            lemma_put_blocks_keeps(st, data, off, prev);
            lemma_put_blocks_free(st1, data, off + n, sid);
            lemma_keeps_free_trans(st, st1, put_blocks(st1, data, off + n, sid).st);
        }
    }
}

/// Writing one item writes only bytes that are settled afterwards.
pub proof fn lemma_put_item_free(st: State, item: Item)
    requires
        cursors_ok(st),
    ensures
        keeps_free(st, put_item(st, item).st),
{
    let stored = entry_of(item, st.section_id).reverse();
    lemma_put_fat_keeps(st, stored);
    let mid = put_fat(st, stored).st;
    match item {
        Item::File { data, .. } => {
            lemma_put_blocks_free(mid, data, 0, 0xFFFF);
            lemma_keeps_free_trans(st, mid, put_blocks(mid, data, 0, 0xFFFF).st);
        },
        Item::Dir { id, .. } => {
            let after = State { parent_id: id, ..mid };
            lemma_keeps_free_trans(st, mid, after);
        },
        _ => {},
    }
}

/// Storing a sequence of items writes only bytes that are settled afterwards:
/// what lies between the two regions in the end was never written.
pub proof fn lemma_store_free(st: State, items: Seq<Item>)
    requires
        cursors_ok(st),
    ensures
        keeps_free(st, store(st, items).st),
    decreases items.len(),
{
    if items.len() > 0 {
        let o = put_item(st, items.first());
        lemma_put_item_free(st, items.first());
        lemma_put_item_keeps(st, items.first());
        if o.err is None {
            lemma_store_free(o.st, items.skip(1));
            lemma_keeps_free_trans(st, o.st, store(o.st, items.skip(1)).st);
        }
    }
}

} // verus!
