//! The writer: a ROM image in memory with its layout and its cursors, and the
//! operations that write a filesystem into it.

use vstd::prelude::*;
use crate::arith::div_rem;
use crate::bytes::{push_le16, reversed, write_bytes};
use crate::entry::{build_dir_entry, build_file_entry, build_symlink_entry};
use crate::error::KfsError;
use crate::image::{blank_byte, blanked, filesystem, image, initial_state, report};
use crate::laws::{lemma_run_sound, run_sound};
use crate::layout::{
    block_addr, fat_start_for, index_of, page_base, page_of, sid_index, spec_fat_start, BLOCK_SIZE,
    DAT_START, KFS_VERSION, LAST_INDEX, NO_SECTION, PAGE_LENGTH,
};
use crate::model::{flatten, Item, Node};
use crate::order::{child_order, sort_children};
use crate::room::{explained, lemma_run_ends};
use crate::store::{
    block_len, cursors_ok, first_magic, lemma_next_sid, lemma_store_children_end, lemma_store_node,
    lemma_store_step, page_magic, put_block, put_blocks, put_dat, put_fat, put_item,
    section_header, store_children, store_node, Outcome, State,
};

verus! {

/// A writer that holds a ROM image in memory, with the layout planned from the
/// image's length and the three cursors of the traversal.
pub struct Context {
    fat_start: u8,
    rom: Vec<u8>,
    parent_id: u16,
    section_id: u16,
    fatptr: u32,
}

impl Context {
    /// The image and the cursors.
    pub closed spec fn view(&self) -> State {
        State {
            rom: self.rom@,
            parent_id: self.parent_id as int,
            section_id: self.section_id as int,
            fatptr: self.fatptr as int,
        }
    }

    /// Number of the first FAT page, the highest page that is written.
    pub closed spec fn fat_page(&self) -> int {
        self.fat_start as int
    }

    /// The layout fits the image: the first FAT page is the one planned from
    /// the image's length.
    pub open spec fn laid_out(&self) -> bool {
        spec_fat_start(self@.rom.len() as int) == Some(self.fat_page())
    }

    /// The layout fits the image, the cursors are in range, and the FAT has not
    /// left its region at the top.
    pub open spec fn wf(&self) -> bool {
        &&& self.laid_out()
        &&& cursors_ok(self@)
        &&& self@.fatptr <= page_base(self.fat_page() + 1)
    }

    /// Whether `self` is where outcome `o` leaves a writer, and `res` the
    /// result that goes with it.
    pub open spec fn follows(&self, o: Outcome, res: Result<(), KfsError>) -> bool {
        self@ == o.st && res == o.result()
    }

    /// Takes a ROM image and plans its layout from its length.
    pub fn new(rom: Vec<u8>) -> (made: Result<Context, KfsError>)
        ensures
            match made {
                Ok(c) => {
                    &&& spec_fat_start(rom@.len() as int) == Some(c.fat_page())
                    &&& c@ == initial_state(rom@, c.fat_page())
                    &&& c.wf()
                },
                Err(e) => e == KfsError::InvalidLayout && spec_fat_start(
                    rom@.len() as int,
                ).is_none(),
            },
    {
        match fat_start_for(rom.len() as u64) {
            Err(e) => Err(e),
            Ok(fat_start) => {
                let fatptr: u32 = (fat_start as u32 + 1) * 16384;
                Ok(Context { fat_start, rom, parent_id: 0, section_id: 0x0401, fatptr })
            },
        }
    }

    /// Number of the first FAT page.
    pub fn fat_start(&self) -> (page: u8)
        ensures
            page == self.fat_page(),
    {
        self.fat_start
    }

    /// Number of the first DAT page.
    pub fn dat_start(&self) -> (page: u8)
        ensures
            page == 4,
    {
        DAT_START
    }

    /// The image as it stands.
    pub fn rom(&self) -> (image: &Vec<u8>)
        ensures
            image@ == self@.rom,
    {
        &self.rom
    }

    /// Gives the image back.
    pub fn into_rom(self) -> (image: Vec<u8>)
        ensures
            image@ == self@.rom,
    {
        self.rom
    }

    /// The last directory number given out.
    pub fn parent_id(&self) -> (id: u16)
        ensures
            id == self@.parent_id,
    {
        self.parent_id
    }

    /// The next free section.
    pub fn section_id(&self) -> (sid: u16)
        ensures
            sid == self@.section_id,
    {
        self.section_id
    }

    /// The lowest byte of the FAT.
    pub fn fatptr(&self) -> (ptr: u32)
        ensures
            ptr == self@.fatptr,
    {
        self.fatptr
    }

    /// Appends one entry, given in the order in which it is stored, below the
    /// FAT pointer. Fails, and writes nothing, where the entry would reach into
    /// the page of the next free section.
    pub fn write_fat(&mut self, entry: &Vec<u8>) -> (res: Result<(), KfsError>)
        requires
            old(self).wf(),
        ensures
            final(self).follows(put_fat(old(self)@, entry@), res),
            final(self).fat_page() == old(self).fat_page(),
            final(self).wf(),
    {
        let floor: u32 = (page_of(self.section_id) as u32 + 1) * 16384;
        let room: u32 = self.fatptr - floor;
        if entry.len() > room as usize {
            return Err(KfsError::OutOfSpace);
        }
        let at: u32 = self.fatptr - entry.len() as u32;
        write_bytes(&mut self.rom, at as usize, entry, 0, entry.len());
        self.fatptr = at;
        assert(entry@.subrange(0, entry@.len() as int) =~= entry@);
        Ok(())
    }

    /// Copies the block of `data` that starts at `offset`, at most 256 bytes,
    /// into the data slot of section `section_id`.
    pub fn write_block(&mut self, data: &Vec<u8>, offset: usize, section_id: u16)
        requires
            offset <= data@.len(),
            sid_index(section_id as int) >= 1,
            block_addr(section_id as int) + block_len(data@.len() as int, offset as int) <= old(
                self,
            )@.rom.len(),
        ensures
            final(self)@ == (State {
                rom: put_block(old(self)@.rom, data@, offset as int, section_id as int),
                ..old(self)@
            }),
            final(self).fat_page() == old(self).fat_page(),
    {
        let page: usize = page_of(section_id) as usize;
        let index: usize = index_of(section_id) as usize;
        let at: usize = page * 16384 + index * 256;
        let left: usize = data.len() - offset;
        let count: usize = if left > BLOCK_SIZE as usize {
            BLOCK_SIZE as usize
        } else {
            left
        };
        write_bytes(&mut self.rom, at, data, offset, count);
    }

    /// Stores `data` as a chain of sections from the next free section on, and
    /// leaves the section cursor behind the chain. Fails where a new page would
    /// have to be opened at or above the page that holds the FAT pointer.
    pub fn write_dat(&mut self, data: &Vec<u8>) -> (res: Result<(), KfsError>)
        requires
            old(self).wf(),
        ensures
            final(self).follows(put_dat(old(self)@, data@), res),
            final(self).fat_page() == old(self).fat_page(),
            final(self).wf(),
    {
        let len: usize = data.len();
        let mut off: usize = 0;
        let mut prev: u16 = NO_SECTION;
        while off < len
            invariant
                self.wf(),
                self.fat_page() == old(self).fat_page(),
                off <= len,
                len == data@.len(),
                put_dat(old(self)@, data@) == put_blocks(self@, data@, off as int, prev as int),
            decreases len - off,
        {
            let sid: u16 = self.section_id;
            let page: u16 = page_of(sid);
            let index: u16 = index_of(sid);
            let header: usize = page as usize * 16384 + index as usize * 4;
            let rolls: bool = index + 1 > LAST_INDEX as u16;
            proof {
                lemma_next_sid(sid as int);
            }
            let next: u16 = if rolls {
                if self.fatptr < (page as u32 + 2) * 16384 {
                    return Err(KfsError::OutOfSpace);
                }
                let version: u8 = 0xFFu8 << KFS_VERSION;
                assert(version == 0xFFu8) by (bit_vector)
                    requires
                        version == 0xFFu8 << 0u8,
                ;
                let magic: Vec<u8> = vec![0x4B, 0x46, 0x53, version];
                write_bytes(&mut self.rom, (page as usize + 1) * 16384, &magic, 0, 4);
                assert(magic@.subrange(0, 4) =~= page_magic());
                (page + 1) * 256 + 1
            } else {
                sid + 1
            };
            let link: u16 = if len - off > BLOCK_SIZE as usize {
                next
            } else {
                NO_SECTION
            };
            let mut head: Vec<u8> = Vec::new();
            push_le16(&mut head, prev % 0x8000);
            push_le16(&mut head, link);
            write_bytes(&mut self.rom, header, &head, 0, 4);
            assert(head@.subrange(0, 4) =~= section_header(prev as int, link as int));
            self.write_block(data, off, sid);
            off = if len - off > BLOCK_SIZE as usize {
                off + BLOCK_SIZE as usize
            } else {
                len
            };
            prev = sid;
            self.section_id = next;
        }
        Ok(())
    }

    /// Writes the FAT entry of a symbolic link held by directory `parent`.
    pub fn write_symlink(&mut self, parent: u16, name: &Vec<u8>, target: &Vec<u8>) -> (res: Result<
        (),
        KfsError,
    >)
        requires
            old(self).wf(),
        ensures
            final(self).follows(
                put_item(
                    old(self)@,
                    Item::Symlink { parent: parent as int, name: name@, target: target@ },
                ),
                res,
            ),
            final(self).fat_page() == old(self).fat_page(),
            final(self).wf(),
    {
        if name.len() > 0xFE || target.len() > 0xFFFF || name.len() + target.len() + 5 > 0xFFFF {
            return Err(KfsError::NameTooLong);
        }
        let entry: Vec<u8> = build_symlink_entry(parent, name, target);
        let stored: Vec<u8> = reversed(&entry);
        self.write_fat(&stored)
    }

    /// Gives the next directory number to a directory held by `parent` and
    /// writes its FAT entry.
    pub fn write_dir_entry(&mut self, parent: u16, name: &Vec<u8>) -> (res: Result<(), KfsError>)
        requires
            old(self).wf(),
        ensures
            final(self).follows(
                put_item(
                    old(self)@,
                    Item::Dir { parent: parent as int, id: old(self)@.parent_id + 1, name: name@ },
                ),
                res,
            ),
            final(self).fat_page() == old(self).fat_page(),
            final(self).wf(),
    {
        if name.len() > 0xFFFF - 6 {
            return Err(KfsError::NameTooLong);
        }
        if self.parent_id == 0xFFFF {
            return Err(KfsError::TooManyDirectories);
        }
        let id: u16 = self.parent_id + 1;
        let entry: Vec<u8> = build_dir_entry(parent, id, name);
        let stored: Vec<u8> = reversed(&entry);
        match self.write_fat(&stored) {
            Err(e) => Err(e),
            Ok(()) => {
                self.parent_id = id;
                Ok(())
            },
        }
    }

    /// Writes the FAT entry of a regular file held by `parent`, then its
    /// content from the next free section on.
    pub fn write_file(&mut self, parent: u16, name: &Vec<u8>, data: &Vec<u8>) -> (res: Result<
        (),
        KfsError,
    >)
        requires
            old(self).wf(),
        ensures
            final(self).follows(
                put_item(
                    old(self)@,
                    Item::File { parent: parent as int, name: name@, data: data@ },
                ),
                res,
            ),
            final(self).fat_page() == old(self).fat_page(),
            final(self).wf(),
    {
        if name.len() > 0xFFFF - 9 {
            return Err(KfsError::NameTooLong);
        }
        if data.len() > 0xFF_FFFF {
            return Err(KfsError::FileTooLarge);
        }
        let entry: Vec<u8> = build_file_entry(parent, data.len() as u32, self.section_id, name);
        let stored: Vec<u8> = reversed(&entry);
        match self.write_fat(&stored) {
            Err(e) => Err(e),
            Ok(()) => self.write_dat(data),
        }
    }

    /// Writes one node held by directory `parent`: its FAT entry, then its
    /// content where it is a file, or all that lies below it where it is a
    /// directory.
    pub fn write_node(&mut self, node: &Node, parent: u16) -> (res: Result<(), KfsError>)
        requires
            old(self).wf(),
        ensures
            final(self).follows(store_node(old(self)@, *node, parent as int), res),
            final(self).fat_page() == old(self).fat_page(),
            final(self).wf(),
        decreases node, 0nat,
    {
        proof {
            lemma_store_node(self@, *node, parent as int);
        }
        match node {
            Node::Symlink { name, target } => self.write_symlink(parent, name, target),
            Node::File { name, data } => self.write_file(parent, name, data),
            Node::Dir { name, children } => {
                match self.write_dir_entry(parent, name) {
                    Err(e) => Err(e),
                    Ok(()) => self.write_recursive(children),
                }
            },
        }
    }

    /// Writes the children of one directory, sorted by name, each with all that
    /// lies below it. The directory's own number is the last one given out when
    /// the call begins.
    pub fn write_recursive(&mut self, children: &Vec<Node>) -> (res: Result<(), KfsError>)
        requires
            old(self).wf(),
        ensures
            final(self).follows(
                store_children(
                    old(self)@,
                    children@,
                    child_order(children@),
                    0,
                    old(self)@.parent_id,
                ),
                res,
            ),
            final(self).fat_page() == old(self).fat_page(),
            final(self).wf(),
        decreases children, 1nat,
    {
        let parent: u16 = self.parent_id;
        let order: Vec<usize> = sort_children(children);
        let ghost ord = child_order(children@);
        let ghost whole = store_children(self@, children@, ord, 0, parent as int);
        assert forall|i: int| 0 <= i < order@.len() implies #[trigger] order@[i] as int == ord[i]
            && order@[i] < children@.len() by {}
        let mut k: usize = 0;
        while k < order.len()
            invariant
                self.wf(),
                self.fat_page() == old(self).fat_page(),
                k <= order@.len(),
                order@.len() == ord.len(),
                forall|i: int| 0 <= i < order@.len() ==> #[trigger] order@[i] as int == ord[i],
                forall|i: int| 0 <= i < order@.len() ==> #[trigger] order@[i] < children@.len(),
                ord == child_order(children@),
                whole == store_children(old(self)@, children@, ord, 0, old(self)@.parent_id),
                whole == store_children(self@, children@, ord, k as int, parent as int),
            decreases order@.len() - k,
        {
            let at: usize = order[k];
            let node: &Node = &children[at];
            proof {
                lemma_store_step(self@, children@, ord, k as int, parent as int);
            }
            match self.write_node(node, parent) {
                Err(e) => {
                    return Err(e);
                },
                Ok(()) => {},
            }
            k += 1;
        }
        proof {
            lemma_store_children_end(self@, children@, ord, k as int, parent as int);
        }
        Ok(())
    }

    /// Sweeps pages `4..=fat_start`: every byte becomes `0xFF`, but the first
    /// byte of each page that is at least four pages below the first FAT page
    /// becomes `'K'`.
    pub fn init_pages(&mut self)
        requires
            old(self).laid_out(),
        ensures
            final(self)@ == (State {
                rom: blanked(old(self)@.rom, old(self).fat_page()),
                ..old(self)@
            }),
            final(self).fat_page() == old(self).fat_page(),
            final(self).laid_out(),
    {
        let mut blank_page: Vec<u8> = Vec::new();
        let mut n: usize = 0;
        while n < PAGE_LENGTH as usize
            invariant
                n <= 16384,
                blank_page@.len() == n,
                forall|i: int| 0 <= i < n ==> blank_page@[i] == 0xFFu8,
            decreases 16384 - n,
        {
            blank_page.push(0xFF);
            n += 1;
        }
        let last: u16 = self.fat_start as u16;
        let mut p: u16 = DAT_START as u16;
        while p <= last
            invariant
                4 <= p <= last + 1,
                last == self.fat_page(),
                self.laid_out(),
                self.fat_page() == old(self).fat_page(),
                self@.parent_id == old(self)@.parent_id,
                self@.section_id == old(self)@.section_id,
                self@.fatptr == old(self)@.fatptr,
                blank_page@.len() == 16384,
                forall|i: int| 1 <= i < 16384 ==> blank_page@[i] == 0xFFu8,
                self@.rom == Seq::new(
                    old(self)@.rom.len(),
                    |a: int|
                        if page_base(4) <= a < page_base(p as int) {
                            blank_byte(a, last as int)
                        } else {
                            old(self)@.rom[a]
                        },
                ),
            decreases last + 1 - p,
        {
            let first: u8 = if p + 4 <= last {
                0x4B
            } else {
                0xFF
            };
            blank_page.set(0, first);
            write_bytes(&mut self.rom, p as usize * 16384, &blank_page, 0, PAGE_LENGTH as usize);
            p += 1;
        }
    }

    /// Writes the filesystem of `model` into the image: resets the cursors,
    /// puts the magic on the first DAT page, stores the model, and returns the
    /// number of FAT pages (high byte) and of DAT pages (low byte) written.
    pub fn write_filesystem(&mut self, model: &Vec<Node>) -> (res: Result<u16, KfsError>)
        requires
            old(self).laid_out(),
        ensures
            final(self)@ == filesystem(old(self)@.rom, old(self).fat_page(), model@).st,
            res == report(
                filesystem(old(self)@.rom, old(self).fat_page(), model@),
                old(self).fat_page(),
            ),
            final(self).fat_page() == old(self).fat_page(),
            final(self).wf(),
    {
        self.parent_id = 0;
        self.section_id = DAT_START as u16 * 256 + 1;
        self.fatptr = (self.fat_start as u32 + 1) * 16384;
        let fatptr_start: u32 = self.fatptr;
        let magic: Vec<u8> = vec![0x4B, 0x46, 0x53];
        write_bytes(&mut self.rom, DAT_START as usize * 16384, &magic, 0, 3);
        proof {
            assert(magic@.subrange(0, 3) =~= first_magic());
            reveal(store_children);
        }
        match self.write_recursive(model) {
            Err(e) => Err(e),
            Ok(()) => {
                let (quot, rem) = div_rem(fatptr_start - self.fatptr, PAGE_LENGTH as u32);
                let mut result: u16 = quot as u16;
                if rem > 0 {
                    result += 1;
                }
                result = result * 256;
                Ok(result + page_of(self.section_id) - DAT_START as u16 + 1)
            },
        }
    }

    /// Runs the writer: sweeps the pages, then writes the filesystem of
    /// `model`. Ends well exactly where the model fits the image, and then
    /// returns the number of FAT pages (high byte) and of DAT pages (low byte)
    /// written.
    pub fn run(&mut self, model: &Vec<Node>) -> (res: Result<u16, KfsError>)
        requires
            old(self).laid_out(),
        ensures
            final(self)@ == image(old(self)@.rom, old(self).fat_page(), model@).st,
            res == report(
                image(old(self)@.rom, old(self).fat_page(), model@),
                old(self).fat_page(),
            ),
            run_sound(old(self)@.rom, old(self).fat_page(), model@, final(self)@, res is Ok),
            explained(res, old(self).fat_page(), flatten(model@)),
            final(self).fat_page() == old(self).fat_page(),
            final(self).wf(),
    {
        proof {
            lemma_run_sound(self@.rom, self.fat_page(), model@);
            lemma_run_ends(self@.rom, self.fat_page(), model@);
        }
        self.init_pages();
        self.write_filesystem(model)
    }
}

} // verus!
