//! Section chains as a reader finds them, and the proof that every stored
//! file reads back as its content.

use vstd::prelude::*;
use crate::bytes::{from_le16, le16};
use crate::entry::entry_of;
use crate::frame::{
    keeps_settled, lemma_keeps_settled_trans, lemma_put_blocks_frame, lemma_slot_of_block,
    lemma_slot_of_header, lemma_store_frame, settled,
};
use crate::layout::{block_addr, header_addr, next_sid};
use crate::model::Item;
use crate::store::{
    block_len, cursors_ok, lemma_next_sid, lemma_put_blocks_keeps, lemma_put_fat_keeps,
    lemma_put_item_keeps, put_blocks, put_fat, put_item, put_section, section_header, store, State,
};

verus! {

/// The previous-section field in the header of section `sid`.
pub open spec fn stored_prev(rom: Seq<u8>, sid: int) -> int {
    from_le16(rom[header_addr(sid)], rom[header_addr(sid) + 1])
}

/// The next-section field in the header of section `sid`.
pub open spec fn stored_next(rom: Seq<u8>, sid: int) -> int {
    from_le16(rom[header_addr(sid) + 2], rom[header_addr(sid) + 3])
}

/// What a reader gets who walks the chain that starts at section `sid` for
/// `len` bytes: 256 bytes from each section but the last, and the rest from the
/// last, going from each section to the next that its header names.
pub open spec fn read_chain(rom: Seq<u8>, sid: int, len: int) -> Seq<u8>
    decreases len,
{
    if len <= 0 {
        Seq::empty()
    } else if len <= 256 {
        rom.subrange(block_addr(sid), block_addr(sid) + len)
    } else {
        rom.subrange(block_addr(sid), block_addr(sid) + 256) + read_chain(
            rom,
            stored_next(rom, sid),
            len - 256,
        )
    }
}

/// The last section of the chain of `len` bytes that starts at section `sid`,
/// found by walking the headers.
pub open spec fn chain_end(rom: Seq<u8>, sid: int, len: int) -> int
    decreases len,
{
    if len <= 256 {
        sid
    } else {
        chain_end(rom, stored_next(rom, sid), len - 256)
    }
}

/// Whether `rom` holds `data[off..]` as a chain from section `sid` on, with
/// `prev` before it: each header names the section before (its high bit
/// cleared) and the section after, or none at the end, and each block holds its
/// part of the data.
pub open spec fn chain_stored(rom: Seq<u8>, data: Seq<u8>, off: int, sid: int, prev: int) -> bool
    decreases data.len() - off,
{
    if off < 0 || off >= data.len() {
        true
    } else {
        let n = block_len(data.len() as int, off);
        &&& stored_prev(rom, sid) == prev % 0x8000
        &&& stored_next(rom, sid) == if data.len() - off > 256 {
            next_sid(sid)
        } else {
            0xFFFF
        }
        &&& rom.subrange(block_addr(sid), block_addr(sid) + n) == data.subrange(off, off + n)
        &&& chain_stored(rom, data, off + n, next_sid(sid), sid)
    }
}

/// Two bytes, low byte first, hold the 16-bit value that they were made of.
pub proof fn lemma_le16_value(v: int)
    requires
        0 <= v <= 0xFFFF,
    ensures
        from_le16(le16(v)[0], le16(v)[1]) == v,
        le16(v).len() == 2,
{
}

/// Once content has been stored, its chain stands in every later image that
/// kept the settled bytes.
pub proof fn lemma_chain_stored(st: State, data: Seq<u8>, off: int, prev: int, later: State)
    requires
        cursors_ok(st),
        0 <= prev <= 0xFFFF,
        put_blocks(st, data, off, prev).err is None,
        keeps_settled(put_blocks(st, data, off, prev).st, later),
    ensures
        chain_stored(later.rom, data, off, st.section_id, prev),
    decreases data.len() - off,
{
    if 0 <= off < data.len() {
        let sid = st.section_id;
        let next = next_sid(sid);
        lemma_next_sid(sid);
        let link = if data.len() - off > 256 {
            next
        } else {
            0xFFFF
        };
        let header = section_header(prev, link);
        let st1 = put_section(st, data, off, prev);
        let n = block_len(data.len() as int, off);
        let end = put_blocks(st1, data, off + n, sid).st;
        lemma_put_blocks_keeps(st, data, off, prev);
        lemma_put_blocks_frame(st1, data, off + n, sid);
        lemma_keeps_settled_trans(st1, end, later);
        lemma_chain_stored(st1, data, off + n, sid, later);
        let piece = data.subrange(off, off + n);
        assert forall|d: int| 0 <= d < 4 implies later.rom[header_addr(sid) + d] == header[d] by {
            lemma_slot_of_header(sid, d);
            lemma_slot_of_block(sid, 0);
        }
        assert forall|d: int| 0 <= d < n implies later.rom[block_addr(sid) + d] == piece[d] by {
            lemma_slot_of_block(sid, d);
        }
        lemma_slot_of_block(sid, n - 1);
        assert(later.rom.subrange(block_addr(sid), block_addr(sid) + n) =~= piece);
        lemma_le16_value(prev % 0x8000);
        lemma_le16_value(link);
        assert(later.rom[header_addr(sid) + 0] == header[0]);
        assert(later.rom[header_addr(sid) + 1] == header[1]);
        assert(later.rom[header_addr(sid) + 2] == header[2]);
        assert(later.rom[header_addr(sid) + 3] == header[3]);
    }
}

/// A reader who walks a stored chain gets the data back.
pub proof fn lemma_read_chain(rom: Seq<u8>, data: Seq<u8>, off: int, sid: int, prev: int)
    requires
        0 <= off <= data.len(),
        chain_stored(rom, data, off, sid, prev),
    ensures
        read_chain(rom, sid, data.len() - off) == data.subrange(off, data.len() as int),
    decreases data.len() - off,
{
    let len = data.len() as int;
    if off >= len {
    } else {
        if len - off > 256 {
            lemma_read_chain(rom, data, off + 256, next_sid(sid), sid);
            assert(data.subrange(off, len) =~= data.subrange(off, off + 256) + data.subrange(
                off + 256,
                len,
            ));
        }
    }
}

/// A stored chain ends in a section whose header names no next section.
pub proof fn lemma_chain_ends(rom: Seq<u8>, data: Seq<u8>, off: int, sid: int, prev: int)
    requires
        0 <= off < data.len(),
        chain_stored(rom, data, off, sid, prev),
    ensures
        stored_next(rom, chain_end(rom, sid, data.len() - off)) == 0xFFFF,
    decreases data.len() - off,
{
    if data.len() - off > 256 {
        lemma_chain_ends(rom, data, off + 256, next_sid(sid), sid);
    }
}

/// The section cursor at which item `k` of `items` is written when they are
/// stored from state `st`: the first section of its content where it is a file.
pub open spec fn first_sid(st: State, items: Seq<Item>, k: int) -> int {
    store(st, items.take(k)).st.section_id
}

/// The state before item `k` is the state before item `k - 1` of the rest,
/// counted from where the first item left the writer.
pub proof fn lemma_take_step(st: State, items: Seq<Item>, k: int)
    requires
        0 < k <= items.len(),
        put_item(st, items.first()).err is None,
    ensures
        store(st, items.take(k)) == store(
            put_item(st, items.first()).st,
            items.skip(1).take(k - 1),
        ),
{
    assert(items.take(k).skip(1) =~= items.skip(1).take(k - 1));
}

/// After the items have been stored, the chain of every file among them stands
/// in the image: it starts at the section that was free when the file was
/// written, and holds the file's content.
pub proof fn lemma_store_chains(st: State, items: Seq<Item>, k: int)
    requires
        cursors_ok(st),
        store(st, items).err is None,
        0 <= k < items.len(),
        items[k] is File,
    ensures
        chain_stored(store(st, items).st.rom, items[k]->data, 0, first_sid(st, items, k), 0xFFFF),
    decreases items.len(),
{
    let first = items.first();
    let o = put_item(st, first);
    lemma_put_item_keeps(st, first);
    let end = store(st, items).st;
    lemma_store_frame(o.st, items.skip(1));
    if k == 0 {
        let stored = entry_of(first, st.section_id).reverse();
        let mid = put_fat(st, stored).st;
        lemma_put_fat_keeps(st, stored);
        lemma_chain_stored(mid, first->data, 0, 0xFFFF, end);
    } else {
        lemma_take_step(st, items, k);
        lemma_store_chains(o.st, items.skip(1), k - 1);
    }
}

} // verus!
