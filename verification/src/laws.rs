//! What holds of every run: the laws of the image, stated over
//! [`image`](crate::image::image) and proved from the modules below it.

use vstd::prelude::*;
use crate::bytes::overlay;
use crate::chain::{
    chain_end, first_sid, lemma_chain_ends, lemma_read_chain, lemma_store_chains, read_chain,
    stored_next, stored_prev,
};
use crate::context::Context;
use crate::entry::entry_of;
use crate::fat::{
    entry_stands, fat_bytes, fat_stream, fat_top, lemma_parse_stream, lemma_records_index,
    lemma_records_len, lemma_store_fat, lemma_store_fat_region, lemma_stream_len, parse_fat,
    record_of, records, Record,
};
use crate::frame::{
    lemma_slot_below, lemma_slot_of_block, lemma_slot_of_header, lemma_slot_of_magic,
    lemma_store_frame, lemma_store_free, settled,
};
use crate::error::KfsError;
use crate::image::{blank_byte, blanked, fat_pages, image, initial_state, report, summary};
use crate::layout::{block_addr, header_addr, page_base, sid_index, sid_page, spec_fat_start};
use crate::model::{dir_count, flatten, lemma_dir_count_concat, Item, Node};
use crate::sections::{
    blocks_in, lemma_first_sid, lemma_sid_at_ordinal, lemma_store_ordinal, sid_at,
};
use crate::store::{
    block_len, cursors_ok, first_magic, lemma_next_sid, lemma_put_blocks_keeps,
    lemma_put_fat_keeps, lemma_put_item_keeps, lemma_store_counter, no_room_to_roll, put_blocks,
    put_fat, put_item, put_section, store, State,
};
use crate::tree::{lemma_dir_count_nonneg, lemma_tree, parent_of};

verus! {

/// The state in which the model is stored during a run.
pub open spec fn run_start(rom: Seq<u8>, fat_start: int) -> State {
    initial_state(overlay(blanked(rom, fat_start), page_base(4), first_magic()), fat_start)
}

/// A run begins with its cursors in range.
pub proof fn lemma_run_start_ok(rom: Seq<u8>, fat_start: int)
    requires
        spec_fat_start(rom.len() as int) == Some(fat_start),
    ensures
        cursors_ok(run_start(rom, fat_start)),
{
}

/// A run, whether it ends well or not, keeps the image's length and leaves
/// every byte of the kernel's pages, and every byte from the end of the first
/// FAT page on, as it was.
pub proof fn lemma_run_keeps_outside(rom: Seq<u8>, fat_start: int, model: Seq<Node>)
    requires
        spec_fat_start(rom.len() as int) == Some(fat_start),
    ensures
        image(rom, fat_start, model).st.rom.len() == rom.len(),
        forall|a: int|
            0 <= a < page_base(4) ==> #[trigger] image(rom, fat_start, model).st.rom[a] == rom[a],
        forall|a: int|
            page_base(fat_start + 1) <= a < rom.len() ==> #[trigger] image(
                rom,
                fat_start,
                model,
            ).st.rom[a] == rom[a],
{
    let st0 = run_start(rom, fat_start);
    let end = image(rom, fat_start, model).st;
    lemma_run_start_ok(rom, fat_start);
    lemma_store_frame(st0, flatten(model));
    assert forall|a: int| 0 <= a < page_base(4) implies #[trigger] end.rom[a] == rom[a] by {
        lemma_slot_below(a, 4);
    }
}

/// Whether page `p` begins with `'K'`.
pub open spec fn page_tagged(rom: Seq<u8>, p: int) -> bool {
    rom[page_base(p)] == 0x4Bu8
}

/// Storing content never takes the `'K'` from the start of a page below the FAT
/// pointer.
pub proof fn lemma_put_blocks_tags(st: State, data: Seq<u8>, off: int, prev: int, p: int)
    requires
        cursors_ok(st),
        0 <= p,
        page_base(p) < st.fatptr,
        page_tagged(st.rom, p),
    ensures
        page_tagged(put_blocks(st, data, off, prev).st.rom, p),
    decreases data.len() - off,
{
    if 0 <= off < data.len() {
        let sid = st.section_id;
        lemma_next_sid(sid);
        if !no_room_to_roll(st) {
            let st1 = put_section(st, data, off, prev);
            let n = block_len(data.len() as int, off);
            let x = page_base(p);
            lemma_slot_of_magic(p, 0);
            if block_addr(sid) <= x < block_addr(sid) + n {
                lemma_slot_of_block(sid, x - block_addr(sid));
            }
            if header_addr(sid) <= x < header_addr(sid) + 4 {
                lemma_slot_of_header(sid, x - header_addr(sid));
            }
            lemma_put_blocks_keeps(st, data, off, prev);
            lemma_put_blocks_tags(st1, data, off + n, sid, p);
        }
    }
}

/// Writing one item never takes the `'K'` from the start of a page that is
/// still below the FAT pointer afterwards.
pub proof fn lemma_put_item_tags(st: State, item: Item, p: int)
    requires
        cursors_ok(st),
        0 <= p,
        page_base(p) < put_item(st, item).st.fatptr,
        page_tagged(st.rom, p),
    ensures
        page_tagged(put_item(st, item).st.rom, p),
{
    let stored = entry_of(item, st.section_id).reverse();
    lemma_put_fat_keeps(st, stored);
    let mid = put_fat(st, stored).st;
    if let Item::File { data, .. } = item {
        if put_item(st, item) == put_blocks(mid, data, 0, 0xFFFF) {
            lemma_put_blocks_keeps(mid, data, 0, 0xFFFF);
            lemma_put_blocks_tags(mid, data, 0, 0xFFFF, p);
        }
    }
}

/// Storing items never takes the `'K'` from the start of a page that is still
/// below the FAT pointer afterwards.
pub proof fn lemma_store_tags(st: State, items: Seq<Item>, p: int)
    requires
        cursors_ok(st),
        0 <= p,
        page_base(p) < store(st, items).st.fatptr,
        page_tagged(st.rom, p),
    ensures
        page_tagged(store(st, items).st.rom, p),
    decreases items.len(),
{
    if items.len() > 0 {
        let o = put_item(st, items.first());
        lemma_put_item_keeps(st, items.first());
        if o.err is None {
            lemma_store_frame(o.st, items.skip(1));
            lemma_put_item_tags(st, items.first(), p);
            lemma_store_tags(o.st, items.skip(1), p);
        } else {
            lemma_put_item_tags(st, items.first(), p);
        }
    }
}

/// After a run, whether it ends well or not, every page from the first DAT page
/// up to four pages below the first FAT page begins with `'K'`, as long as the
/// FAT has not grown down over the page's first byte.
pub proof fn lemma_run_tags_pages(rom: Seq<u8>, fat_start: int, model: Seq<Node>)
    requires
        spec_fat_start(rom.len() as int) == Some(fat_start),
    ensures
        forall|p: int|
            4 <= p <= fat_start - 4 && page_base(p) < image(rom, fat_start, model).st.fatptr
                ==> #[trigger] page_tagged(image(rom, fat_start, model).st.rom, p),
{
    let st0 = run_start(rom, fat_start);
    lemma_run_start_ok(rom, fat_start);
    assert forall|p: int|
        4 <= p <= fat_start - 4 && page_base(p) < image(
            rom,
            fat_start,
            model,
        ).st.fatptr implies #[trigger] page_tagged(image(rom, fat_start, model).st.rom, p) by {
        lemma_store_tags(st0, flatten(model), p);
    }
}

/// Where the FAT has stayed inside its four pages, every page from the first
/// DAT page up to four pages below the first FAT page begins with `'K'`.
pub proof fn lemma_run_tags_all_pages(rom: Seq<u8>, fat_start: int, model: Seq<Node>)
    requires
        spec_fat_start(rom.len() as int) == Some(fat_start),
        image(rom, fat_start, model).st.fatptr >= page_base(fat_start - 3),
    ensures
        forall|p: int|
            4 <= p <= fat_start - 4 ==> #[trigger] page_tagged(
                image(rom, fat_start, model).st.rom,
                p,
            ),
{
    lemma_run_tags_pages(rom, fat_start, model);
}

/// In a run that ends well every directory number that is written fits in 16
/// bits, and so does the parent of every item.
pub proof fn lemma_run_parents_fit(rom: Seq<u8>, fat_start: int, model: Seq<Node>)
    requires
        spec_fat_start(rom.len() as int) == Some(fat_start),
        image(rom, fat_start, model).err is None,
    ensures
        image(rom, fat_start, model).st.parent_id == dir_count(flatten(model)),
        forall|k: int|
            0 <= k < flatten(model).len() ==> 0 <= parent_of(#[trigger] flatten(model)[k])
                <= 0xFFFF,
{
    let st0 = run_start(rom, fat_start);
    let items = flatten(model);
    lemma_run_start_ok(rom, fat_start);
    lemma_tree(model);
    lemma_store_counter(st0, items);
    lemma_store_frame(st0, items);
    assert forall|k: int| 0 <= k < items.len() implies 0 <= parent_of(#[trigger] items[k])
        <= 0xFFFF by {
        assert(items =~= items.take(k) + items.skip(k));
        lemma_dir_count_concat(items.take(k), items.skip(k));
        lemma_dir_count_nonneg(items.skip(k));
    }
}

/// After a run that ends well, the FAT region from its top down to the FAT
/// pointer is the entries of the traversal sequence in a row, each first byte
/// first, and reading them gives the records of the traversal sequence.
pub proof fn lemma_run_fat(rom: Seq<u8>, fat_start: int, model: Seq<Node>)
    requires
        spec_fat_start(rom.len() as int) == Some(fat_start),
        image(rom, fat_start, model).err is None,
    ensures
        ({
            let end = image(rom, fat_start, model).st;
            let stream = fat_stream(run_start(rom, fat_start), flatten(model));
            &&& end.fatptr == page_base(fat_start + 1) - stream.len()
            &&& end.rom.subrange(end.fatptr, page_base(fat_start + 1)).reverse() == stream
            &&& parse_fat(stream) == Some(records(run_start(rom, fat_start), flatten(model)))
        }),
{
    let st0 = run_start(rom, fat_start);
    lemma_run_start_ok(rom, fat_start);
    lemma_run_parents_fit(rom, fat_start, model);
    lemma_store_fat_region(st0, flatten(model));
    lemma_parse_stream(st0, flatten(model));
}

/// After a run that ends well, the entry of each item of the traversal sequence
/// stands reversed in the image, strictly below the entry of the item before
/// it; the first ends at the top of the first FAT page.
pub proof fn lemma_run_fat_entry(rom: Seq<u8>, fat_start: int, model: Seq<Node>, k: int)
    requires
        spec_fat_start(rom.len() as int) == Some(fat_start),
        image(rom, fat_start, model).err is None,
        0 <= k < flatten(model).len(),
    ensures
        ({
            let st0 = run_start(rom, fat_start);
            let items = flatten(model);
            &&& fat_top(st0, items, 0) == page_base(fat_start + 1)
            &&& fat_top(st0, items, k + 1) < fat_top(st0, items, k)
            &&& image(rom, fat_start, model).st.fatptr <= fat_top(st0, items, k + 1)
            &&& entry_stands(image(rom, fat_start, model).st.rom, st0, items, k)
        }),
{
    let st0 = run_start(rom, fat_start);
    let items = flatten(model);
    lemma_run_start_ok(rom, fat_start);
    lemma_store_fat(st0, items, k);
}

/// After a run that ends well, the record of every file of the traversal
/// sequence names the section at which the file's chain starts, and a reader
/// who walks the chain from there, taking 256 bytes from each section but the
/// last and the rest from the last, gets exactly the file's content.
pub proof fn lemma_run_files_readable(rom: Seq<u8>, fat_start: int, model: Seq<Node>, k: int)
    requires
        spec_fat_start(rom.len() as int) == Some(fat_start),
        image(rom, fat_start, model).err is None,
        0 <= k < flatten(model).len(),
        flatten(model)[k] is File,
    ensures
        ({
            let st0 = run_start(rom, fat_start);
            let items = flatten(model);
            let data = items[k]->data;
            &&& records(st0, items)[k] == (Record::File {
                parent: parent_of(items[k]),
                length: data.len() as int,
                sid: first_sid(st0, items, k),
                name: items[k]->File_name,
            })
            &&& read_chain(
                image(rom, fat_start, model).st.rom,
                first_sid(st0, items, k),
                data.len() as int,
            ) == data
        }),
{
    let st0 = run_start(rom, fat_start);
    let items = flatten(model);
    let data = items[k]->data;
    let end = image(rom, fat_start, model).st;
    lemma_run_start_ok(rom, fat_start);
    lemma_records_index(st0, items, k);
    lemma_store_chains(st0, items, k);
    lemma_read_chain(end.rom, data, 0, first_sid(st0, items, k), 0xFFFF);
}

/// After a run that ends well, the chain of every file that is not empty begins
/// with a section whose header names `0xFFFF`, with its high bit cleared, as
/// the section before, and ends with a section whose header names `0xFFFF` as
/// the section after.
pub proof fn lemma_run_chains_end(rom: Seq<u8>, fat_start: int, model: Seq<Node>, k: int)
    requires
        spec_fat_start(rom.len() as int) == Some(fat_start),
        image(rom, fat_start, model).err is None,
        0 <= k < flatten(model).len(),
        flatten(model)[k] is File,
        flatten(model)[k]->data.len() > 0,
    ensures
        ({
            let end = image(rom, fat_start, model).st;
            let first = first_sid(run_start(rom, fat_start), flatten(model), k);
            let len = flatten(model)[k]->data.len() as int;
            &&& stored_prev(end.rom, first) == 0x7FFF
            &&& stored_next(end.rom, chain_end(end.rom, first, len)) == 0xFFFF
        }),
{
    let st0 = run_start(rom, fat_start);
    let items = flatten(model);
    let end = image(rom, fat_start, model).st;
    lemma_run_start_ok(rom, fat_start);
    lemma_store_chains(st0, items, k);
    lemma_chain_ends(end.rom, items[k]->data, 0, first_sid(st0, items, k), 0xFFFF);
}

/// What a run leaves and returns depends on the image and the model alone: two
/// writers that hold the same image give the same result, whatever their
/// cursors were.
pub proof fn lemma_run_deterministic(a: Context, b: Context, model: Seq<Node>)
    requires
        a.laid_out(),
        b.laid_out(),
        a@.rom == b@.rom,
    ensures
        a.fat_page() == b.fat_page(),
        image(a@.rom, a.fat_page(), model) == image(b@.rom, b.fat_page(), model),
        report(image(a@.rom, a.fat_page(), model), a.fat_page()) == report(
            image(b@.rom, b.fat_page(), model),
            b.fat_page(),
        ),
{
}

/// After a run, whether it ends well or not, every byte of the written region
/// that still lies between the two regions, in no slot below the next free
/// section and below the FAT pointer, is as the page initializer left it.
pub proof fn lemma_run_keeps_free(rom: Seq<u8>, fat_start: int, model: Seq<Node>)
    requires
        spec_fat_start(rom.len() as int) == Some(fat_start),
    ensures
        forall|a: int|
            page_base(4) <= a < page_base(fat_start + 1) && !settled(
                image(rom, fat_start, model).st,
                a,
            ) ==> #[trigger] image(rom, fat_start, model).st.rom[a] == blank_byte(a, fat_start),
{
    let st0 = run_start(rom, fat_start);
    let end = image(rom, fat_start, model).st;
    lemma_run_start_ok(rom, fat_start);
    lemma_store_free(st0, flatten(model));
    lemma_store_frame(st0, flatten(model));
    assert forall|a: int|
        page_base(4) <= a < page_base(fat_start + 1) && !settled(
            end,
            a,
        ) implies #[trigger] end.rom[a] == blank_byte(a, fat_start) by {
        if a < page_base(4) + 3 {
            lemma_slot_of_magic(4, a - page_base(4));
        }
    }
}

/// After a run that ends well, the chains of the files lie one behind the
/// other from section 1 of page 4 on: the section that the record of an item
/// names is as many places on as the files before the item have blocks.
pub proof fn lemma_run_first_sid(rom: Seq<u8>, fat_start: int, model: Seq<Node>, k: int)
    requires
        spec_fat_start(rom.len() as int) == Some(fat_start),
        image(rom, fat_start, model).err is None,
        0 <= k <= flatten(model).len(),
    ensures
        first_sid(run_start(rom, fat_start), flatten(model), k) == sid_at(
            blocks_in(flatten(model).take(k)),
        ),
{
    let st0 = run_start(rom, fat_start);
    let items = flatten(model);
    lemma_run_start_ok(rom, fat_start);
    lemma_first_sid(st0, items, k);
    lemma_store_frame(st0, items.take(k));
    lemma_sid_at_ordinal(first_sid(st0, items, k));
}

/// A run that ends well returns, in the high byte, the number of pages that
/// the entries of the traversal sequence reach into and, in the low byte, one
/// more than the number of DAT pages that the blocks of its files fill.
pub proof fn lemma_run_summary(rom: Seq<u8>, fat_start: int, model: Seq<Node>)
    requires
        spec_fat_start(rom.len() as int) == Some(fat_start),
        image(rom, fat_start, model).err is None,
    ensures
        summary(image(rom, fat_start, model).st, fat_start) == fat_pages(
            fat_bytes(flatten(model)),
        ) * 256 + blocks_in(flatten(model)) / 63 + 1,
        0 <= fat_pages(fat_bytes(flatten(model))) <= 0xFF,
        0 <= blocks_in(flatten(model)) / 63 + 1 <= 0xFF,
        report(image(rom, fat_start, model), fat_start) == Ok::<u16, KfsError>(
            (fat_pages(fat_bytes(flatten(model))) * 256 + blocks_in(flatten(model)) / 63
                + 1) as u16,
        ),
{
    let st0 = run_start(rom, fat_start);
    let items = flatten(model);
    let end = image(rom, fat_start, model).st;
    lemma_run_start_ok(rom, fat_start);
    lemma_store_frame(st0, items);
    lemma_store_fat_region(st0, items);
    lemma_stream_len(st0, items);
    lemma_store_ordinal(st0, items);
    let p = sid_page(end.section_id) - 4;
    let i = sid_index(end.section_id) - 1;
    assert((p * 63 + i) / 63 == p) by (nonlinear_arith)
        requires
            0 <= p,
            0 <= i < 63,
    ;
}

/// A second run over the image that a first run left, with the same model, ends
/// as the first did and leaves the same image.
pub proof fn lemma_run_twice(rom: Seq<u8>, fat_start: int, model: Seq<Node>)
    requires
        spec_fat_start(rom.len() as int) == Some(fat_start),
    ensures
        image(image(rom, fat_start, model).st.rom, fat_start, model) == image(
            rom,
            fat_start,
            model,
        ),
{
    let first = image(rom, fat_start, model).st.rom;
    lemma_run_keeps_outside(rom, fat_start, model);
    assert(blanked(first, fat_start) =~= blanked(rom, fat_start));
}

/// The regions never meet. Before and after every item of a run, whether it
/// ends well or not, the next free section lies in a page from the first DAT
/// page to the first FAT page, with a block index from 1 to `0x3F`, and the FAT
/// pointer lies at or above the end of that page and at or below the top of the
/// first FAT page.
pub proof fn lemma_run_regions_apart(rom: Seq<u8>, fat_start: int, model: Seq<Node>, k: int)
    requires
        spec_fat_start(rom.len() as int) == Some(fat_start),
        0 <= k <= flatten(model).len(),
    ensures
        ({
            let st = store(run_start(rom, fat_start), flatten(model).take(k)).st;
            &&& cursors_ok(st)
            &&& 4 <= sid_page(st.section_id) <= fat_start
            &&& 1 <= sid_index(st.section_id) <= 0x3F
            &&& page_base(sid_page(st.section_id) + 1) <= st.fatptr <= page_base(fat_start + 1)
        }),
{
    lemma_run_start_ok(rom, fat_start);
    lemma_store_frame(run_start(rom, fat_start), flatten(model).take(k));
}

/// Whether `after` has the length of `before` and the same bytes in the
/// kernel's pages and from the end of the first FAT page on.
pub open spec fn outside_kept(before: Seq<u8>, after: Seq<u8>, fat_start: int) -> bool {
    &&& after.len() == before.len()
    &&& forall|a: int| 0 <= a < page_base(4) ==> #[trigger] after[a] == before[a]
    &&& forall|a: int|
        page_base(fat_start + 1) <= a < before.len() ==> #[trigger] after[a] == before[a]
}

/// Whether every page from the first DAT page up to four pages below the first
/// FAT page, whose first byte lies below `fatptr`, begins with `'K'`.
pub open spec fn pages_tagged(rom: Seq<u8>, fat_start: int, fatptr: int) -> bool {
    forall|p: int|
        4 <= p <= fat_start - 4 && page_base(p) < fatptr ==> #[trigger] page_tagged(rom, p)
}

/// Whether the FAT region of `rom`, from the top of page `fat_start` down to
/// `fatptr`, is `stream` read from the top down.
pub open spec fn fat_holds(rom: Seq<u8>, fat_start: int, fatptr: int, stream: Seq<u8>) -> bool {
    &&& fatptr == page_base(fat_start + 1) - stream.len()
    &&& rom.subrange(fatptr, page_base(fat_start + 1)).reverse() == stream
}

/// Whether the records of `items`, as stored from state `st`, stand item by
/// item: the record at each position is that of the item at the position,
/// and for a file it names the section that was free when the file was
/// written.
pub open spec fn records_stand(st: State, items: Seq<Item>) -> bool {
    &&& records(st, items).len() == items.len()
    &&& forall|k: int|
        0 <= k < items.len() ==> #[trigger] records(st, items)[k] == record_of(
            items[k],
            first_sid(st, items, k),
        )
}

/// Whether `rom` holds the chain of every file among `items`, as stored from
/// state `st`: a reader who walks the chain from the section that the file's
/// record names gets the file's content, the first section names `0xFFFF`
/// with its high bit cleared as the section before it, and the last names
/// `0xFFFF` as the section after it.
pub open spec fn files_stand(rom: Seq<u8>, st: State, items: Seq<Item>) -> bool {
    forall|k: int|
        0 <= k < items.len() && (#[trigger] items[k]) is File ==> {
            let sid = first_sid(st, items, k);
            let data = items[k]->data;
            &&& read_chain(rom, sid, data.len() as int) == data
            &&& data.len() > 0 ==> stored_prev(rom, sid) == 0x7FFF && stored_next(
                rom,
                chain_end(rom, sid, data.len() as int),
            ) == 0xFFFF
        }
}

/// Whether every byte of the written region that lies between the two
/// regions of `end`, in no slot below the next free section and below the
/// FAT pointer, is as the page initializer leaves it.
pub open spec fn free_blank(end: State, fat_start: int) -> bool {
    forall|a: int|
        page_base(4) <= a < page_base(fat_start + 1) && !settled(end, a) ==> #[trigger] end.rom[a]
            == blank_byte(a, fat_start)
}

/// What holds of the state `end` in which a run over `rom` and `model` has left
/// the writer, and what holds in addition where the run ended well: what lies
/// outside the written region is as it was, the DAT pages are tagged, and what
/// lies between the two regions is blank; and then the FAT reads as the
/// traversal sequence, every file reads as its content, and the directory
/// counter stands at the number of directories.
pub open spec fn run_sound(
    rom: Seq<u8>,
    fat_start: int,
    model: Seq<Node>,
    end: State,
    ok: bool,
) -> bool {
    let st0 = run_start(rom, fat_start);
    let items = flatten(model);
    &&& outside_kept(rom, end.rom, fat_start)
    &&& pages_tagged(end.rom, fat_start, end.fatptr)
    &&& free_blank(end, fat_start)
    &&& ok ==> {
        &&& fat_holds(end.rom, fat_start, end.fatptr, fat_stream(st0, items))
        &&& parse_fat(fat_stream(st0, items)) == Some(records(st0, items))
        &&& records_stand(st0, items)
        &&& files_stand(end.rom, st0, items)
        &&& end.parent_id == dir_count(items)
    }
}

/// Every run is sound: it keeps what lies outside the region it writes, it tags
/// the DAT pages, and where it ends well the FAT reads as the traversal
/// sequence and every file reads as its content.
pub proof fn lemma_run_sound(rom: Seq<u8>, fat_start: int, model: Seq<Node>)
    requires
        spec_fat_start(rom.len() as int) == Some(fat_start),
    ensures
        run_sound(
            rom,
            fat_start,
            model,
            image(rom, fat_start, model).st,
            image(rom, fat_start, model).err is None,
        ),
{
    let o = image(rom, fat_start, model);
    let st0 = run_start(rom, fat_start);
    let items = flatten(model);
    lemma_run_keeps_outside(rom, fat_start, model);
    lemma_run_tags_pages(rom, fat_start, model);
    lemma_run_keeps_free(rom, fat_start, model);
    if o.err is None {
        lemma_run_fat(rom, fat_start, model);
        lemma_run_parents_fit(rom, fat_start, model);
        lemma_records_len(st0, items);
        assert forall|k: int| 0 <= k < items.len() implies #[trigger] records(st0, items)[k]
            == record_of(items[k], first_sid(st0, items, k)) by {
            lemma_records_index(st0, items, k);
        }
        assert forall|k: int| 0 <= k < items.len() && (#[trigger] items[k]) is File implies {
            let sid = first_sid(st0, items, k);
            let data = items[k]->data;
            &&& read_chain(o.st.rom, sid, data.len() as int) == data
            &&& data.len() > 0 ==> stored_prev(o.st.rom, sid) == 0x7FFF && stored_next(
                o.st.rom,
                chain_end(o.st.rom, sid, data.len() as int),
            ) == 0xFFFF
        } by {
            lemma_run_files_readable(rom, fat_start, model, k);
            if items[k]->data.len() > 0 {
                lemma_run_chains_end(rom, fat_start, model, k);
            }
        }
    }
}

} // verus!
