//! The image that a run leaves: the page initializer, the filesystem, and the
//! summary that a run returns.

use vstd::prelude::*;
use crate::bytes::overlay;
use crate::error::KfsError;
use crate::layout::{page_base, sid_page};
use crate::model::{flatten, Node};
use crate::store::{first_magic, store, Outcome, State};

verus! {

/// The byte that the page initializer leaves at offset `addr`: `'K'` at the
/// start of each page that is at least four pages below the first FAT page, and
/// `0xFF` everywhere else.
pub open spec fn blank_byte(addr: int, fat_start: int) -> u8 {
    if addr % 16384 == 0 && addr / 16384 <= fat_start - 4 {
        0x4Bu8
    } else {
        0xFFu8
    }
}

/// The image after the page initializer has swept pages `4..=fat_start`.
pub open spec fn blanked(rom: Seq<u8>, fat_start: int) -> Seq<u8> {
    Seq::new(
        rom.len(),
        |a: int|
            if page_base(4) <= a < page_base(fat_start + 1) {
                blank_byte(a, fat_start)
            } else {
                rom[a]
            },
    )
}

/// The state in which the writing of a filesystem begins: no directory numbered
/// yet, the first section of the first DAT page free, and the FAT empty at the
/// top of its region.
pub open spec fn initial_state(rom: Seq<u8>, fat_start: int) -> State {
    State { rom, parent_id: 0, section_id: 0x0401, fatptr: page_base(fat_start + 1) }
}

/// Where the writer stands after it has put the magic on the first DAT page and
/// stored the whole model.
pub open spec fn filesystem(rom: Seq<u8>, fat_start: int, model: Seq<Node>) -> Outcome {
    store(initial_state(overlay(rom, page_base(4), first_magic()), fat_start), flatten(model))
}

/// Where the writer stands after a whole run: the page initializer, then the
/// filesystem.
pub open spec fn image(rom: Seq<u8>, fat_start: int, model: Seq<Node>) -> Outcome {
    filesystem(blanked(rom, fat_start), fat_start, model)
}

/// Number of pages that `used` bytes of FAT reach into.
pub open spec fn fat_pages(used: int) -> int {
    used / 16384 + if used % 16384 > 0 {
        1int
    } else {
        0int
    }
}

/// Number of DAT pages up to the one that holds the next free section.
pub open spec fn dat_pages(section_id: int) -> int {
    sid_page(section_id) - 4 + 1
}

/// The summary of a finished run: FAT pages in the high byte, DAT pages in the
/// low byte.
pub open spec fn summary(st: State, fat_start: int) -> int {
    fat_pages(page_base(fat_start + 1) - st.fatptr) * 256 + dat_pages(st.section_id)
}

/// What a run returns: the summary, or the error that stopped it.
pub open spec fn report(o: Outcome, fat_start: int) -> Result<u16, KfsError> {
    match o.err {
        Some(e) => Err(e),
        None => Ok(summary(o.st, fat_start) as u16),
    }
}

} // verus!
