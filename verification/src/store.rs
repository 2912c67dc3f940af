//! What each step of the writer does to the image and the cursors: appending
//! to the FAT, storing content in chained sections, writing one item, and
//! storing a sequence of items.

use vstd::prelude::*;
use crate::bytes::{le16, overlay};
use crate::entry::{entry_of, name_fits};
use crate::error::KfsError;
use crate::layout::{block_addr, header_addr, next_sid, page_base, rolls_over, sid_index, sid_page};
use crate::order::child_order;
use crate::model::{
    dir_count, flat_from, flat_node, ids_in_order, lemma_dir_count_one, lemma_flat_node_ids,
    lemma_ids_rest, Item, Node,
};

verus! {

/// The image and the three cursors of a writer: the last directory number given
/// out, the next free section, and the lowest byte of the FAT.
pub ghost struct State {
    pub rom: Seq<u8>,
    pub parent_id: int,
    pub section_id: int,
    pub fatptr: int,
}

/// Where a step leaves the writer, and the error that stopped it, if any.
pub ghost struct Outcome {
    pub st: State,
    pub err: Option<KfsError>,
}

impl Outcome {
    /// The outcome as the result of a call.
    pub open spec fn result(self) -> Result<(), KfsError> {
        match self.err {
            Some(e) => Err(e),
            None => Ok(()),
        }
    }
}

/// The step that succeeds and leaves `st`.
pub open spec fn done(st: State) -> Outcome {
    Outcome { st, err: None }
}

/// The step that stops in `st` with error `e`.
pub open spec fn failed(st: State, e: KfsError) -> Outcome {
    Outcome { st, err: Some(e) }
}

/// The cursors are in range and the two regions have not met: the next free
/// section has a block index of its own, its page lies wholly below the FAT,
/// and the FAT lies inside the image.
pub open spec fn cursors_ok(st: State) -> bool {
    &&& 0 <= st.parent_id <= 0xFFFF
    &&& 1 <= sid_index(st.section_id) <= 0x3F
    &&& 4 <= sid_page(st.section_id)
    &&& page_base(sid_page(st.section_id) + 1) <= st.fatptr
    &&& st.fatptr <= st.rom.len()
    &&& st.fatptr <= 0x40_0000
}

/// The magic that opens a DAT page entered by rollover: `"KFS"` and the version
/// byte.
pub open spec fn page_magic() -> Seq<u8> {
    seq![0x4Bu8, 0x46u8, 0x53u8, 0xFFu8]
}

/// The magic that opens the first DAT page: `"KFS"` alone.
pub open spec fn first_magic() -> Seq<u8> {
    seq![0x4Bu8, 0x46u8, 0x53u8]
}

/// The four bytes of a section header: the previous section with its high bit
/// cleared, which marks the section as used, then the next section.
pub open spec fn section_header(prev: int, next: int) -> Seq<u8> {
    le16(prev % 0x8000) + le16(next)
}

/// Appends one stored entry below the FAT pointer, if the FAT stays above the
/// page of the next free section.
pub open spec fn put_fat(st: State, stored: Seq<u8>) -> Outcome {
    if st.fatptr - stored.len() < page_base(sid_page(st.section_id) + 1) {
        failed(st, KfsError::OutOfSpace)
    } else {
        done(
            State {
                rom: overlay(st.rom, st.fatptr - stored.len(), stored),
                fatptr: st.fatptr - stored.len(),
                ..st
            },
        )
    }
}

/// Number of bytes in the block that starts at position `off` of a file of
/// `len` bytes.
pub open spec fn block_len(len: int, off: int) -> int {
    if len - off > 256 {
        256
    } else {
        len - off
    }
}

/// The image after the block of `data` at `off` has gone to section `sid`.
pub open spec fn put_block(rom: Seq<u8>, data: Seq<u8>, off: int, sid: int) -> Seq<u8> {
    overlay(rom, block_addr(sid), data.subrange(off, off + block_len(data.len() as int, off)))
}

/// Whether the next free section is the last of its page and the page after
/// it cannot be opened, because the FAT pointer lies in it or below it.
pub open spec fn no_room_to_roll(st: State) -> bool {
    rolls_over(st.section_id) && st.fatptr < page_base(sid_page(next_sid(st.section_id)) + 1)
}

/// The state after the block of `data` at `off` has been stored in the next
/// free section, with `prev` before it in the chain: where the section after
/// it lies in the next page, that page has got its magic; the header names
/// `prev` and the section after, or none where the data ends in this block;
/// the block has gone to the section's data slot; and the section after is
/// the next free section.
pub open spec fn put_section(st: State, data: Seq<u8>, off: int, prev: int) -> State {
    let sid = st.section_id;
    let next = next_sid(sid);
    let opened = if rolls_over(sid) {
        overlay(st.rom, page_base(sid_page(next)), page_magic())
    } else {
        st.rom
    };
    let link = if data.len() - off > 256 {
        next
    } else {
        0xFFFF
    };
    let headed = overlay(opened, header_addr(sid), section_header(prev, link));
    State { rom: put_block(headed, data, off, sid), section_id: next, ..st }
}

/// Stores `data[off..]` in a chain of sections that starts at the next free
/// section; `prev` is the section before it in the chain.
pub open spec fn put_blocks(st: State, data: Seq<u8>, off: int, prev: int) -> Outcome
    decreases data.len() - off,
{
    if off < 0 || off >= data.len() {
        done(st)
    } else if no_room_to_roll(st) {
        failed(st, KfsError::OutOfSpace)
    } else {
        put_blocks(
            put_section(st, data, off, prev),
            data,
            off + block_len(data.len() as int, off),
            st.section_id,
        )
    }
}

/// Stores the content of one file from the next free section on.
pub open spec fn put_dat(st: State, data: Seq<u8>) -> Outcome {
    put_blocks(st, data, 0, 0xFFFF)
}

/// Writes one item: its FAT entry and, for a file, its content.
pub open spec fn put_item(st: State, item: Item) -> Outcome {
    if !name_fits(item) {
        failed(st, KfsError::NameTooLong)
    } else {
        match item {
            Item::Symlink { .. } => put_fat(st, entry_of(item, st.section_id).reverse()),
            Item::Dir { id, .. } => {
                if !(0 <= id <= 0xFFFF) {
                    failed(st, KfsError::TooManyDirectories)
                } else {
                    let o = put_fat(st, entry_of(item, st.section_id).reverse());
                    if o.err is Some {
                        o
                    } else {
                        done(State { parent_id: id, ..o.st })
                    }
                }
            },
            Item::File { data, .. } => {
                if data.len() > 0xFF_FFFF {
                    failed(st, KfsError::FileTooLarge)
                } else {
                    let o = put_fat(st, entry_of(item, st.section_id).reverse());
                    if o.err is Some {
                        o
                    } else {
                        put_dat(o.st, data)
                    }
                }
            },
        }
    }
}

/// Writes `items` one after the other and stops at the first that fails.
pub open spec fn store(st: State, items: Seq<Item>) -> Outcome
    decreases items.len(),
{
    if items.len() == 0 {
        done(st)
    } else {
        let o = put_item(st, items.first());
        if o.err is Some {
            o
        } else {
            store(o.st, items.skip(1))
        }
    }
}

/// Storing two sequences in a row is storing the second from where the first
/// ended, unless the first failed.
pub proof fn lemma_store_concat(st: State, a: Seq<Item>, b: Seq<Item>)
    ensures
        store(st, a + b) == if store(st, a).err is Some {
            store(st, a)
        } else {
            store(store(st, a).st, b)
        },
    decreases a.len(),
{
    if a.len() == 0 {
    } else {
        assert((a + b).skip(1) =~= a.skip(1) + b);
        let o = put_item(st, a.first());
        if o.err is None {
            lemma_store_concat(o.st, a.skip(1), b);
        }
    }
}

/// Appending to the FAT keeps the cursors in range and moves only the FAT
/// pointer, down by the length of the entry.
pub proof fn lemma_put_fat_keeps(st: State, stored: Seq<u8>)
    requires
        cursors_ok(st),
    ensures
        cursors_ok(put_fat(st, stored).st),
        put_fat(st, stored).st.rom.len() == st.rom.len(),
        put_fat(st, stored).st.parent_id == st.parent_id,
        put_fat(st, stored).st.section_id == st.section_id,
        put_fat(st, stored).st.fatptr <= st.fatptr,
        put_fat(st, stored).err is Some ==> put_fat(st, stored).st == st,
{
}

/// The section after a section in range is in range, in the same page or at the
/// start of the next.
pub proof fn lemma_next_sid(sid: int)
    requires
        1 <= sid_index(sid) <= 0x3F,
        0 <= sid,
    ensures
        1 <= sid_index(next_sid(sid)) <= 0x3F,
        next_sid(sid) > sid,
        rolls_over(sid) ==> sid_page(next_sid(sid)) == sid_page(sid) + 1 && sid_index(
            next_sid(sid),
        ) == 1,
        !rolls_over(sid) ==> sid_page(next_sid(sid)) == sid_page(sid) && sid_index(next_sid(sid))
            == sid_index(sid) + 1,
{
}

/// Storing content keeps the cursors in range, moves only the section cursor,
/// and can fail only for want of space.
pub proof fn lemma_put_blocks_keeps(st: State, data: Seq<u8>, off: int, prev: int)
    requires
        cursors_ok(st),
    ensures
        cursors_ok(put_blocks(st, data, off, prev).st),
        put_blocks(st, data, off, prev).st.rom.len() == st.rom.len(),
        put_blocks(st, data, off, prev).st.parent_id == st.parent_id,
        put_blocks(st, data, off, prev).st.fatptr == st.fatptr,
        put_blocks(st, data, off, prev).st.section_id >= st.section_id,
        put_blocks(st, data, off, prev).err is Some ==> put_blocks(st, data, off, prev).err
            == Some(KfsError::OutOfSpace),
    decreases data.len() - off,
{
    if 0 <= off < data.len() && !no_room_to_roll(st) {
        lemma_next_sid(st.section_id);
        lemma_put_blocks_keeps(
            put_section(st, data, off, prev),
            data,
            off + block_len(data.len() as int, off),
            st.section_id,
        );
    }
}

/// Writing one item keeps the cursors in range and the image's length.
pub proof fn lemma_put_item_keeps(st: State, item: Item)
    requires
        cursors_ok(st),
    ensures
        cursors_ok(put_item(st, item).st),
        put_item(st, item).st.rom.len() == st.rom.len(),
        put_item(st, item).st.fatptr <= st.fatptr,
        put_item(st, item).st.section_id >= st.section_id,
        put_item(st, item).err is None ==> put_item(st, item).st.parent_id == if item is Dir {
            item->id
        } else {
            st.parent_id
        },
{
    let stored = entry_of(item, st.section_id).reverse();
    lemma_put_fat_keeps(st, stored);
    if let Item::File { data, .. } = item {
        lemma_put_blocks_keeps(put_fat(st, stored).st, data, 0, 0xFFFF);
    }
}

/// Storing items that are numbered in order raises the directory counter by the
/// number of directories among them.
pub proof fn lemma_store_counter(st: State, items: Seq<Item>)
    requires
        cursors_ok(st),
        ids_in_order(items, st.parent_id),
        store(st, items).err is None,
    ensures
        store(st, items).st.parent_id == st.parent_id + dir_count(items),
    decreases items.len(),
{
    if items.len() > 0 {
        let first = items.first();
        lemma_put_item_keeps(st, first);
        lemma_ids_rest(items, st.parent_id);
        lemma_dir_count_one(first);
        lemma_store_counter(put_item(st, first).st, items.skip(1));
    }
}

/// Storing a single item is writing it.
pub proof fn lemma_store_one(st: State, item: Item)
    ensures
        store(st, seq![item]) == put_item(st, item),
{
    let items = seq![item];
    let o = put_item(st, item);
    if o.err is None {
        assert(store(o.st, items.skip(1)) == done(o.st));
    }
}

/// Where the writer stands after `node`, held by directory `parent`, and all
/// below it have been written from state `st`.
#[verifier::opaque]
pub open spec fn store_node(st: State, node: Node, parent: int) -> Outcome {
    store(st, flat_node(node, parent, st.parent_id))
}

/// Where the writer stands after the children at `order[k..]`, held by
/// directory `parent`, have been written from state `st`.
#[verifier::opaque]
pub open spec fn store_children(
    st: State,
    children: Seq<Node>,
    order: Seq<int>,
    k: int,
    parent: int,
) -> Outcome {
    store(st, flat_from(children, order, k, parent, st.parent_id))
}

/// Storing the children from position `k` on is storing the child at `k` with
/// all below it, and then the children behind it.
pub proof fn lemma_store_step(
    st: State,
    children: Seq<Node>,
    order: Seq<int>,
    k: int,
    parent: int,
)
    requires
        cursors_ok(st),
        0 <= k < order.len(),
        0 <= order[k] < children.len(),
    ensures
        store_children(st, children, order, k, parent) == if store_node(
            st,
            children[order[k]],
            parent,
        ).err is Some {
            store_node(st, children[order[k]], parent)
        } else {
            store_children(
                store_node(st, children[order[k]], parent).st,
                children,
                order,
                k + 1,
                parent,
            )
        },
{
    reveal(store_node);
    reveal(store_children);
    let head = flat_node(children[order[k]], parent, st.parent_id);
    let rest = flat_from(children, order, k + 1, parent, st.parent_id + dir_count(head));
    lemma_store_concat(st, head, rest);
    lemma_flat_node_ids(children[order[k]], parent, st.parent_id);
    if store(st, head).err is None {
        lemma_store_counter(st, head);
    }
}

/// Past the last position nothing is left to store.
pub proof fn lemma_store_children_end(
    st: State,
    children: Seq<Node>,
    order: Seq<int>,
    k: int,
    parent: int,
)
    requires
        k >= order.len(),
    ensures
        store_children(st, children, order, k, parent) == done(st),
{
    reveal(store_children);
}

/// A file or a link is one item; a directory is its own item and then its
/// children, held by the number that the directory was given.
pub proof fn lemma_store_node(st: State, node: Node, parent: int)
    ensures
        store_node(st, node, parent) == match node {
            Node::File { name, data } => put_item(
                st,
                Item::File { parent, name: name@, data: data@ },
            ),
            Node::Symlink { name, target } => put_item(
                st,
                Item::Symlink { parent, name: name@, target: target@ },
            ),
            Node::Dir { name, children } => {
                let own = put_item(st, Item::Dir { parent, id: st.parent_id + 1, name: name@ });
                if own.err is Some {
                    own
                } else {
                    store_children(own.st, children@, child_order(children@), 0, st.parent_id + 1)
                }
            },
        },
{
    reveal(store_node);
    reveal(store_children);
    let head = flat_node(node, parent, st.parent_id);
    match node {
        Node::Dir { name, children } => {
            let own = Item::Dir { parent, id: st.parent_id + 1, name: name@ };
            let inner = flat_from(
                children@,
                child_order(children@),
                0,
                st.parent_id + 1,
                st.parent_id + 1,
            );
            lemma_store_one(st, own);
            lemma_store_concat(st, seq![own], inner);
        },
        _ => {
            lemma_store_one(st, head[0]);
        },
    }
}

} // verus!
