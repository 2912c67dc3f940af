//! The order in which sections are given out, and where the chain of each
//! file starts.

use vstd::prelude::*;
use crate::chain::first_sid;
use crate::entry::entry_of;
use crate::layout::{make_sid, next_sid, sid_index, sid_page};
use crate::model::Item;
use crate::store::{
    block_len, cursors_ok, lemma_next_sid, lemma_put_blocks_keeps, lemma_put_fat_keeps,
    lemma_put_item_keeps, lemma_store_concat, put_blocks, put_fat, put_item, put_section, store,
    State,
};

verus! {

/// The place of a section in the order in which sections are given out,
/// counted from section 1 of page 4; each page has 63 sections.
pub open spec fn sid_ordinal(sid: int) -> int {
    (sid_page(sid) - 4) * 63 + sid_index(sid) - 1
}

/// The section at place `ordinal` in the order in which sections are given
/// out.
pub open spec fn sid_at(ordinal: int) -> int {
    make_sid(4 + ordinal / 63, 1 + ordinal % 63)
}

/// Number of sections that a file of `len` bytes takes.
pub open spec fn blocks_of(len: int) -> int {
    (len + 255) / 256
}

/// Number of sections that the files among `items` take together.
pub open spec fn blocks_in(items: Seq<Item>) -> int
    decreases items.len(),
{
    if items.len() == 0 {
        0
    } else {
        blocks_in(items.skip(1)) + if items.first() is File {
            blocks_of(items.first()->data.len() as int)
        } else {
            0
        }
    }
}

/// A section in range is the section at its place.
pub proof fn lemma_sid_at_ordinal(sid: int)
    requires
        1 <= sid_index(sid) <= 0x3F,
        4 <= sid_page(sid),
    ensures
        sid_at(sid_ordinal(sid)) == sid,
        sid_ordinal(sid) >= 0,
{
    let p = sid_page(sid) - 4;
    let i = sid_index(sid) - 1;
    assert((p * 63 + i) / 63 == p && (p * 63 + i) % 63 == i) by (nonlinear_arith)
        requires
            0 <= p,
            0 <= i < 63,
    ;
}

/// The section after a section has the next place.
pub proof fn lemma_next_ordinal(sid: int)
    requires
        1 <= sid_index(sid) <= 0x3F,
        0 <= sid,
    ensures
        sid_ordinal(next_sid(sid)) == sid_ordinal(sid) + 1,
{
    lemma_next_sid(sid);
}

/// Storing content moves the section cursor on by one place for each block.
pub proof fn lemma_put_blocks_ordinal(st: State, data: Seq<u8>, off: int, prev: int)
    requires
        cursors_ok(st),
        0 <= off <= data.len(),
        put_blocks(st, data, off, prev).err is None,
    ensures
        sid_ordinal(put_blocks(st, data, off, prev).st.section_id) == sid_ordinal(st.section_id)
            + blocks_of(data.len() - off),
    decreases data.len() - off,
{
    if off < data.len() {
        let sid = st.section_id;
        lemma_next_ordinal(sid);
        lemma_put_blocks_keeps(st, data, off, prev);
        lemma_put_blocks_ordinal(
            put_section(st, data, off, prev),
            data,
            off + block_len(data.len() as int, off),
            sid,
        );
    }
}

/// Storing items moves the section cursor on by one place for each block of
/// each file among them.
pub proof fn lemma_store_ordinal(st: State, items: Seq<Item>)
    requires
        cursors_ok(st),
        store(st, items).err is None,
    ensures
        sid_ordinal(store(st, items).st.section_id) == sid_ordinal(st.section_id) + blocks_in(
            items,
        ),
    decreases items.len(),
{
    if items.len() > 0 {
        let first = items.first();
        let o = put_item(st, first);
        lemma_put_item_keeps(st, first);
        let stored = entry_of(first, st.section_id).reverse();
        lemma_put_fat_keeps(st, stored);
        if let Item::File { data, .. } = first {
            lemma_put_blocks_ordinal(put_fat(st, stored).st, data, 0, 0xFFFF);
        }
        lemma_store_ordinal(o.st, items.skip(1));
    }
}

/// The chains of the files lie one behind the other: the first section of a
/// stored item is as many places from the section that was free at the start
/// as the files before the item have blocks.
pub proof fn lemma_first_sid(st: State, items: Seq<Item>, k: int)
    requires
        cursors_ok(st),
        store(st, items).err is None,
        0 <= k <= items.len(),
    ensures
        store(st, items.take(k)).err is None,
        sid_ordinal(first_sid(st, items, k)) == sid_ordinal(st.section_id) + blocks_in(
            items.take(k),
        ),
{
    assert(items =~= items.take(k) + items.skip(k));
    lemma_store_concat(st, items.take(k), items.skip(k));
    lemma_store_ordinal(st, items.take(k));
}

} // verus!
