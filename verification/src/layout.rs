//! The layout of an image: constants of the format, section identifiers and
//! the offsets they stand for, and the planning of the FAT's first page.

use vstd::prelude::*;
use crate::error::KfsError;

verus! {

/// Bytes in one flash page.
pub const PAGE_LENGTH: u16 = 0x4000;

/// Bytes in one block, the payload of one section.
pub const BLOCK_SIZE: u16 = 0x100;

/// Tag of a FAT entry for a regular file.
pub const KFS_FILE_ID: u8 = 0x7F;

/// Tag of a FAT entry for a directory.
pub const KFS_DIR_ID: u8 = 0xBF;

/// Tag of a FAT entry for a symbolic link.
pub const KFS_SYM_ID: u8 = 0xDF;

/// Format version; the byte after a page's magic is `0xFF << KFS_VERSION`.
pub const KFS_VERSION: u8 = 0x0;

/// First page of the DAT region. Pages below it belong to the kernel.
pub const DAT_START: u8 = 0x04;

/// Highest block index inside a page.
pub const LAST_INDEX: u8 = 0x3F;

/// The section identifier that stands for "none".
pub const NO_SECTION: u16 = 0xFFFF;

/// The page number held in a section identifier: its high byte.
pub open spec fn sid_page(sid: int) -> int {
    sid / 256
}

/// The block index held in a section identifier: its low byte.
pub open spec fn sid_index(sid: int) -> int {
    sid % 256
}

/// The section identifier of block `index` in page `page`.
pub open spec fn make_sid(page: int, index: int) -> int {
    page * 256 + index
}

/// Byte offset at which page `page` begins.
pub open spec fn page_base(page: int) -> int {
    page * 16384
}

/// Byte offset of the four-byte header of section `sid`.
pub open spec fn header_addr(sid: int) -> int {
    page_base(sid_page(sid)) + sid_index(sid) * 4
}

/// Byte offset of the 256-byte block of section `sid`.
pub open spec fn block_addr(sid: int) -> int {
    page_base(sid_page(sid)) + sid_index(sid) * 256
}

/// Whether the section after `sid` lies in the next page.
pub open spec fn rolls_over(sid: int) -> bool {
    sid_index(sid) >= 0x3F
}

/// The section allocated after `sid`: the next index, or index 1 of the next
/// page once index `0x3F` has been used.
pub open spec fn next_sid(sid: int) -> int {
    if rolls_over(sid) {
        make_sid(sid_page(sid) + 1, 1)
    } else {
        sid + 1
    }
}

/// What a byte offset belongs to, as a number that grows with the order in
/// which the DAT region is filled: the page's magic is slot `page * 256`, and
/// the header and the block of section `sid` are both slot `sid`.
pub open spec fn slot_of(addr: int) -> int {
    let page = addr / 16384;
    let off = addr % 16384;
    if off < 256 {
        page * 256 + off / 4
    } else {
        page * 256 + off / 256
    }
}

/// Number of the first FAT page of a ROM of `length` bytes, where there is one.
pub open spec fn spec_fat_start(length: int) -> Option<int> {
    let pages = length / 16384;
    if 13 <= pages && pages - 9 <= 255 {
        Some(pages - 9)
    } else {
        None
    }
}

/// Plans the layout of a ROM of `length` bytes: the number of its first FAT
/// page, counted from the top so that eight pages above it stay untouched.
pub fn fat_start_for(length: u64) -> (planned: Result<u8, KfsError>)
    ensures
        match planned {
            Ok(page) => spec_fat_start(length as int) == Some(page as int),
            Err(e) => e == KfsError::InvalidLayout && spec_fat_start(length as int).is_none(),
        },
{
    let pages: u64 = length / 16384;
    if pages < 13 || pages - 9 > 255 {
        Err(KfsError::InvalidLayout)
    } else {
        Ok((pages - 9) as u8)
    }
}

/// Page number of a section identifier.
pub fn page_of(sid: u16) -> (page: u16)
    ensures
        page == sid_page(sid as int),
        page <= 255,
{
    sid / 256
}

/// Block index of a section identifier.
pub fn index_of(sid: u16) -> (index: u16)
    ensures
        index == sid_index(sid as int),
        index <= 255,
{
    sid % 256
}

} // verus!
